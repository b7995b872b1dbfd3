use frameio::frame::{Data, DataAck, DataEntry};
use frameio::frame_io::{FrameIO, MAX_ACK_IDS};
use frameio::outbox::Outbox;
use frameio::time::{Duration, Instant};

fn at(millis: u128) -> Instant {
    Instant::from_nanos(millis * 1_000_000)
}

fn flush(io: &mut FrameIO, now: Instant) -> Vec<Vec<u8>> {
    let mut outbox = Outbox::new();
    io.flush(now, Duration::new(0, 100_000_000), &mut outbox);
    outbox.frames
}

fn enqueue(io: &mut FrameIO, bytes: &[u8], reliable: bool, high_priority: bool) {
    io.enqueue_datagram(DataEntry::new(bytes.to_vec()), reliable, high_priority);
}

fn receive(io: &mut FrameIO, ack: bool, sequence_id: u32) -> bool {
    io.handle_data_frame(Data::new(ack, sequence_id, vec![])).is_some()
}

fn acknowledge(io: &mut FrameIO, ids: &[u32]) {
    io.handle_data_ack(DataAck { sequence_ids: ids.to_vec() });
}

#[test]
fn new_end_is_idle() {
    let mut io = FrameIO::new(1, 2, 0);
    assert!(io.is_idle());
    assert!(io.datagrams_fit());
    assert!(flush(&mut io, at(0)).is_empty());
    assert!(io.is_idle());
}

#[test]
fn datagrams_share_a_frame() {
    let mut io = FrameIO::new(1, 2, 0);
    enqueue(&mut io, b"low", true, false);
    enqueue(&mut io, b"un", false, true);
    enqueue(&mut io, b"high", true, true);
    assert!(!io.is_idle());
    assert_eq!(flush(&mut io, at(0)), vec![b"\x00\x01\x00\x00\x00\x01highlowun".to_vec()]);
    assert!(!io.is_idle());
    acknowledge(&mut io, &[1]);
    assert!(io.is_idle());
}

#[test]
fn unreliable_frame_asks_for_no_ack() {
    let mut io = FrameIO::new(1, 2, 0);
    enqueue(&mut io, b"un", false, true);
    assert_eq!(flush(&mut io, at(0)), vec![b"\x00\x00\x00\x00\x00\x01un".to_vec()]);
    assert!(flush(&mut io, at(101)).is_empty());
    assert!(io.is_idle());
}

#[test]
fn frames_keep_to_the_limit() {
    let mut io = FrameIO::new(0, 0, 0);
    // Make room for several frames
    for id in 0..4 {
        enqueue(&mut io, b"x", true, true);
        assert_eq!(flush(&mut io, at(0)).len(), 1);
        acknowledge(&mut io, &[id]);
    }
    // 1466 bytes fill a frame
    enqueue(&mut io, &[1; 1000], true, true);
    enqueue(&mut io, &[2; 466], true, true);
    enqueue(&mut io, &[3; 1], true, true);
    enqueue(&mut io, &[4; 1466], true, true);
    let frames = flush(&mut io, at(0));
    let sizes: Vec<usize> = frames.iter().map(|f| f.len()).collect();
    assert_eq!(sizes, vec![1472, 7, 1472]);
    assert_eq!(frames[0][5], 4);
    assert_eq!(frames[2][5], 6);
}

#[test]
fn congestion_window_limits_what_is_sent() {
    let mut io = FrameIO::new(0, 0, 0);
    enqueue(&mut io, &[1; 1000], true, false);
    enqueue(&mut io, &[2; 1000], true, false);
    enqueue(&mut io, &[3; 10], false, false);
    enqueue(&mut io, &[4; 10], true, false);
    let frames = flush(&mut io, at(0));
    assert_eq!(frames.len(), 1);
    assert_eq!(frames[0].len(), 1006);
    // The unreliable datagram no longer waits; the reliable ones do, in order
    acknowledge(&mut io, &[0]);
    let frames = flush(&mut io, at(0));
    assert_eq!(frames.len(), 1);
    assert_eq!(frames[0].len(), 1016);
    assert_eq!(frames[0][6], 2);
    assert_eq!(frames[0][1015], 4);
}

#[test]
fn full_congestion_window_sends_nothing() {
    let mut io = FrameIO::new(0, 0, 0);
    enqueue(&mut io, &[1; 1466], true, false);
    assert_eq!(flush(&mut io, at(0)).len(), 1);
    enqueue(&mut io, b"reliable", true, false);
    enqueue(&mut io, b"unreliable", false, false);
    assert!(flush(&mut io, at(0)).is_empty());
    acknowledge(&mut io, &[0]);
    assert_eq!(flush(&mut io, at(0)), vec![b"\x00\x01\x00\x00\x00\x01reliable".to_vec()]);
}

#[test]
fn window_left_over_from_one_frame_is_used() {
    let mut io = FrameIO::new(0, 0, 0);
    enqueue(&mut io, b"x", true, true);
    flush(&mut io, at(0));
    acknowledge(&mut io, &[0]);
    // 2944 bytes of window: a full frame, then what fits beside it
    enqueue(&mut io, &[1; 1466], true, true);
    enqueue(&mut io, &[2; 1000], true, true);
    enqueue(&mut io, &[3; 500], true, true);
    let sizes: Vec<usize> = flush(&mut io, at(0)).iter().map(|f| f.len()).collect();
    assert_eq!(sizes, vec![1472, 1006]);
    assert!(flush(&mut io, at(0)).is_empty());
}

#[test]
fn transfer_window_limits_what_is_sent() {
    let mut io = FrameIO::new(0, 0, 0);
    for _ in 0..127 {
        enqueue(&mut io, b"", true, true);
        assert_eq!(flush(&mut io, at(0)).len(), 1);
    }
    enqueue(&mut io, b"a", true, true);
    assert_eq!(flush(&mut io, at(0)).len(), 1);
    enqueue(&mut io, b"b", true, true);
    assert!(flush(&mut io, at(0)).is_empty());
    acknowledge(&mut io, &[0]);
    assert_eq!(flush(&mut io, at(0)), vec![b"\x00\x01\x00\x00\x00\x80b".to_vec()]);
}

#[test]
fn oversized_datagram_is_noticed() {
    let mut io = FrameIO::new(0, 0, 0);
    enqueue(&mut io, &[0; 1466], true, true);
    assert!(io.datagrams_fit());
    enqueue(&mut io, &[0; 1467], false, false);
    assert!(!io.datagrams_fit());
}

#[test]
fn flush_in_two_steps() {
    let timeout = Duration::new(0, 100_000_000);
    let mut io = FrameIO::new(0, 9, 0);
    enqueue(&mut io, b"old", true, true);
    flush(&mut io, at(0));
    receive(&mut io, true, 9);
    enqueue(&mut io, b"new", true, true);
    let mut outbox = Outbox::new();
    io.flush_transfers(at(101), timeout, &mut outbox);
    assert_eq!(
        outbox.frames,
        vec![vec![1, 0, 0, 0, 9], b"\x00\x01\x00\x00\x00\x00old".to_vec()]
    );
    let mut outbox = Outbox::new();
    assert!(io.try_send_data(at(101), &mut outbox));
    assert_eq!(outbox.frames, vec![b"\x00\x01\x00\x00\x00\x01new".to_vec()]);
}

/// An end with an empty congestion window of this many full frames.
fn end_with_window(frames: u32) -> FrameIO {
    let mut io = FrameIO::new(0, 0, 0);
    for id in 0..frames - 1 {
        enqueue(&mut io, b"x", true, true);
        flush(&mut io, at(0));
        acknowledge(&mut io, &[id]);
    }
    io
}

#[test]
fn sending_stops_at_an_oversized_datagram() {
    let mut io = end_with_window(3);
    enqueue(&mut io, &[1; 1466], true, true);
    enqueue(&mut io, &[2; 10], true, true);
    enqueue(&mut io, &[3; 1467], true, true);
    enqueue(&mut io, &[4; 10], true, true);
    let mut outbox = Outbox::new();
    assert!(!io.try_send_data(at(0), &mut outbox));
    let sizes: Vec<usize> = outbox.frames.iter().map(|f| f.len()).collect();
    // What waits in front of it is sent, what waits behind it is not
    assert_eq!(sizes, vec![1472, 16]);
}

#[test]
fn oversized_datagram_in_front_is_reached() {
    let mut io = end_with_window(2);
    enqueue(&mut io, &[1; 1467], true, true);
    let mut outbox = Outbox::new();
    assert!(!io.try_send_data(at(0), &mut outbox));
    assert!(outbox.frames.is_empty());
    assert!(!io.is_idle());
}

#[test]
fn oversized_datagram_beyond_the_window_is_not_reached() {
    // One byte too many for a frame is also one too many for the smallest window
    let mut io = FrameIO::new(0, 0, 0);
    enqueue(&mut io, &[1; 1467], true, true);
    let mut outbox = Outbox::new();
    assert!(io.try_send_data(at(0), &mut outbox));
    assert!(outbox.frames.is_empty());

    // An unreliable one does not wait on
    let mut io = FrameIO::new(0, 0, 0);
    enqueue(&mut io, b"ab", true, true);
    enqueue(&mut io, &[1; 1467], false, false);
    let mut outbox = Outbox::new();
    assert!(io.try_send_data(at(0), &mut outbox));
    assert_eq!(outbox.frames, vec![b"\x00\x01\x00\x00\x00\x00ab".to_vec()]);
    assert!(io.datagrams_fit());
}

#[test]
fn frame_stays_in_flight_until_it_is_named() {
    let mut io = FrameIO::new(0, 0, 0);
    enqueue(&mut io, b"a", true, true);
    enqueue(&mut io, b"b", true, true);
    let frames = flush(&mut io, at(0));
    assert_eq!(frames, vec![b"\x00\x01\x00\x00\x00\x00ab".to_vec()]);
    // An acknowledgement of another frame leaves it to be sent again
    acknowledge(&mut io, &[1, 2, 3]);
    assert_eq!(flush(&mut io, at(101)), frames);
    acknowledge(&mut io, &[0]);
    assert!(io.is_idle());
}

#[test]
fn unreliable_datagram_is_sent_at_most_once() {
    let mut io = FrameIO::new(0, 0, 0);
    enqueue(&mut io, b"uu", false, true);
    enqueue(&mut io, b"r", true, true);
    assert_eq!(flush(&mut io, at(0)), vec![b"\x00\x01\x00\x00\x00\x00ruu".to_vec()]);
    for n in 1..5 {
        assert_eq!(flush(&mut io, at(2000 * n)), vec![b"\x00\x01\x00\x00\x00\x00r".to_vec()]);
    }
}

#[test]
fn acknowledgements_out_of_order() {
    let mut io = FrameIO::new(5, 0, 0);
    enqueue(&mut io, b"u", false, true);
    flush(&mut io, at(0));
    enqueue(&mut io, b"v", false, true);
    flush(&mut io, at(0));
    acknowledge(&mut io, &[6, 5, 5, 9]);
    assert!(io.is_idle());
    // Two acknowledgements make a window of three frames
    for _ in 0..4 {
        enqueue(&mut io, &[1; 1466], true, true);
    }
    assert_eq!(flush(&mut io, at(0)).len(), 3);
}

#[test]
fn receive_window_edges() {
    let expected: u32 = 50;
    let edges: [(i32, bool); 6] =
        [(0, true), (127, true), (128, false), (-1, true), (-128, true), (-129, false)];
    for (offset, taken) in edges {
        let mut io = FrameIO::new(0, expected, 0);
        let id = expected.wrapping_add(offset as u32);
        assert_eq!(receive(&mut io, true, id), taken, "offset {}", offset);
        let frames = flush(&mut io, at(0));
        if taken {
            assert_eq!(frames, vec![DataAck { sequence_ids: vec![id] }.to_bytes()]);
        } else {
            assert!(frames.is_empty());
        }
    }
}

#[test]
fn newer_frame_moves_the_receive_window() {
    let mut io = FrameIO::new(0, u32::MAX, 0);
    assert!(receive(&mut io, false, u32::MAX));
    assert!(receive(&mut io, false, 100));
    // Expected next is 101
    assert!(receive(&mut io, false, 228));
    assert!(receive(&mut io, false, 101));
    assert!(!receive(&mut io, false, 100));
    assert!(!receive(&mut io, false, 357));
    assert!(receive(&mut io, false, 356));
}

#[test]
fn datagrams_are_handed_over() {
    let mut io = FrameIO::new(0, 5, 0);
    let entries = io.handle_data_frame(Data::new(true, 5, vec![
        DataEntry::new(vec![1]),
        DataEntry::new(vec![2, 3]),
    ])).unwrap();
    assert_eq!(entries.len(), 2);
    assert_eq!(entries[1].bytes, vec![2, 3]);
}

#[test]
fn repeated_frame_is_acknowledged_again() {
    let mut io = FrameIO::new(0, 5, 0);
    assert!(receive(&mut io, true, 5));
    assert!(receive(&mut io, true, 5));
    assert_eq!(flush(&mut io, at(0)), vec![DataAck { sequence_ids: vec![5, 5] }.to_bytes()]);
    assert!(flush(&mut io, at(0)).is_empty());
}

#[test]
fn frame_without_ack_flag_is_not_acknowledged() {
    let mut io = FrameIO::new(0, 5, 0);
    assert!(receive(&mut io, false, 5));
    assert!(flush(&mut io, at(0)).is_empty());
}

#[test]
fn acknowledgements_are_split_over_frames() {
    let mut io = FrameIO::new(0, 0, 0);
    let count = 2 * MAX_ACK_IDS as u32 + 1;
    for id in 0..count {
        assert!(receive(&mut io, true, id));
    }
    let frames = flush(&mut io, at(0));
    assert_eq!(MAX_ACK_IDS, 367);
    let sizes: Vec<usize> = frames.iter().map(|f| f.len()).collect();
    assert_eq!(sizes, vec![1469, 1469, 5]);
    assert_eq!(frames[1], DataAck { sequence_ids: (367..734).collect() }.to_bytes());
    assert_eq!(frames[2], vec![1, 0, 0, 2, 222]);
}

#[test]
fn flush_acknowledges_then_resends_then_sends() {
    let mut io = FrameIO::new(0, 9, 0);
    enqueue(&mut io, b"old", true, true);
    flush(&mut io, at(0));
    receive(&mut io, true, 9);
    enqueue(&mut io, b"new", true, true);
    assert_eq!(
        flush(&mut io, at(101)),
        vec![
            vec![1, 0, 0, 0, 9],
            b"\x00\x01\x00\x00\x00\x00old".to_vec(),
            b"\x00\x01\x00\x00\x00\x01new".to_vec(),
        ]
    );
}

#[test]
fn reliable_datagram_is_sent_until_acknowledged() {
    let mut sender = FrameIO::new(40, 0, 0);
    let mut receiver = FrameIO::new(0, 40, 0);
    enqueue(&mut sender, b"important", true, false);
    let first = flush(&mut sender, at(0));
    let mut now = 0;
    for _ in 0..20 {
        now += 2000;
        assert_eq!(flush(&mut sender, at(now)), first);
        assert!(!sender.is_idle());
    }
    let entries = receiver
        .handle_data_frame(Data::new(true, 40, vec![DataEntry::new(b"important".to_vec())]));
    assert!(entries.is_some());
    let acks = flush(&mut receiver, at(now));
    assert_eq!(acks, vec![vec![1, 0, 0, 0, 40]]);
    acknowledge(&mut sender, &[40]);
    assert!(sender.is_idle());
    assert!(flush(&mut sender, at(now + 2000)).is_empty());
}

#[test]
fn acknowledging_twice_changes_nothing() {
    let mut io = FrameIO::new(0, 0, 0);
    enqueue(&mut io, b"a", true, true);
    flush(&mut io, at(0));
    enqueue(&mut io, &[7; 1466], true, true);
    acknowledge(&mut io, &[0, 0, 0]);
    // One acknowledgement makes a window of two frames, not more
    enqueue(&mut io, &[8; 1466], true, true);
    enqueue(&mut io, &[9; 1], true, true);
    assert_eq!(flush(&mut io, at(0)).len(), 2);
}

#[test]
fn receive_window_covers_the_transfer_window() {
    let base: u32 = u32::MAX - 60;
    for lead in [0u32, 1, 64, 127, 128] {
        let expected = base.wrapping_add(lead);
        for offset in 0..128 {
            let mut io = FrameIO::new(0, expected, 0);
            assert!(receive(&mut io, true, base.wrapping_add(offset)));
        }
    }
}

#[test]
fn high_priority_goes_into_the_next_frame() {
    let mut io = FrameIO::new(0, 0, 0);
    enqueue(&mut io, &[1; 1466], true, false);
    enqueue(&mut io, &[2; 1466], true, true);
    let frames = flush(&mut io, at(0));
    assert_eq!(frames.len(), 1);
    assert_eq!(frames[0][6], 2);
    acknowledge(&mut io, &[0]);
    assert_eq!(flush(&mut io, at(0))[0][6], 1);
}
