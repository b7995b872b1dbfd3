# frameio

The frame transport of a datagram connection, verified with Verus.

Datagrams wait in a send queue with two levels of priority. A flush acknowledges what was
received, sends the frames that timed out again, and packs waiting datagrams into new frames,
subject to the frame size limit, a congestion window and a window of sequence ids. Reliable
datagrams are sent until the frame that carries them is acknowledged; unreliable ones are sent at
most once.

- `src/frame.rs`: frames and their bytes
- `src/send_queue.rs`: the datagrams that wait
- `src/congestion_window.rs`, `src/transfer_entry.rs`, `src/transfer_queue.rs`: the frames in
  flight
- `src/frame_io.rs`: one end of a connection
- `src/laws/`: what is proved of the transport as a whole
- `src/outbox.rs`, `src/time.rs`: frames due for sending, and instants and spans of time
- `app/`: the transport on the system clock, with a sink that transmits frames
