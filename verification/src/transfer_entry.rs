//! A frame in flight.
use crate::frame::{data_frame, Data, DataEntry, Frame};
use crate::outbox::Outbox;
use crate::time::{Duration, Instant};
use vstd::prelude::*;

verus! {

/// The number of sequence ids that may be in flight at once.
pub const TRANSFER_WINDOW_SIZE: u32 = 128;

/// Of every so many sequence ids, the last one is sent again until it is acknowledged, if only
/// as an empty frame.
pub const SENTINEL_FRAME_SPACING: u32 = 64;

/// How often a frame is sent before the count starts over.
pub const MAX_SEND_COUNT: u32 = 10;

/// A frame in flight: the bytes to send again if it is lost, and the bytes that are then given
/// up.
#[derive(Debug)]
pub struct TransferEntry {
    resend_frame: Option<Vec<u8>>,
    unreliable_size: usize,
    sequence_id: u32,
    last_send_time: Instant,
    send_count: u32,
}

/// The contents of a transfer entry.
#[verifier::ext_equal]
pub struct TransferEntryView {
    pub resend_frame: Option<Seq<u8>>,
    pub unreliable_size: nat,
    pub sequence_id: u32,
    pub last_send_time: Instant,
    pub send_count: u32,
}

/// Whether a frame with this sequence id is sent again until it is acknowledged.
pub open spec fn is_sentinel_id(sequence_id: u32) -> bool {
    sequence_id % SENTINEL_FRAME_SPACING == SENTINEL_FRAME_SPACING - 1
}

/// An empty data frame, which only asks to be acknowledged.
pub open spec fn sentinel_frame(sequence_id: u32) -> Seq<u8> {
    data_frame(true, sequence_id, Seq::empty())
}

impl TransferEntryView {
    /// An entry for a frame that was just sent for the first time.
    pub open spec fn first_sent(
        resend_frame: Option<Seq<u8>>,
        unreliable_size: nat,
        sequence_id: u32,
        send_time: Instant,
    ) -> TransferEntryView {
        TransferEntryView {
            resend_frame,
            unreliable_size,
            sequence_id,
            last_send_time: send_time,
            send_count: 1,
        }
    }

    /// The bytes that the entry has in flight.
    pub open spec fn size(self) -> nat {
        self.unreliable_size + match self.resend_frame {
            Some(frame) => frame.len(),
            None => 0,
        }
    }

    /// The entry after it was sent once more.
    pub open spec fn sent_again(self, now: Instant) -> TransferEntryView {
        TransferEntryView {
            last_send_time: now,
            send_count: if self.send_count >= MAX_SEND_COUNT {
                0
            } else {
                (self.send_count + 1) as u32
            },
            ..self
        }
    }

    /// Whether the frame has been in flight for longer than a timeout per send.
    pub open spec fn timed_out(self, now: Instant, timeout: Duration) -> bool {
        now.spec_nanos_since(self.last_send_time) > timeout.total_nanos() * self.send_count
    }

    /// What is left in flight once the frame has timed out: the reliable datagrams, which are sent
    /// again, or an empty frame in place of a sentinel, or nothing.
    pub open spec fn after_timeout(self, now: Instant) -> Option<TransferEntryView> {
        if self.resend_frame is Some {
            Some((TransferEntryView { unreliable_size: 0, ..self }).sent_again(now))
        } else if is_sentinel_id(self.sequence_id) {
            Some(
                TransferEntryView::first_sent(
                    Some(sentinel_frame(self.sequence_id)),
                    0,
                    self.sequence_id,
                    self.last_send_time,
                ).sent_again(now),
            )
        } else {
            None
        }
    }

    /// What handling a timeout relies on: the sends can be counted once more, and without
    /// anything to send again the entry counts at least a frame header.
    pub open spec fn wf(self) -> bool {
        &&& self.send_count < u32::MAX
        &&& self.resend_frame is None ==> self.unreliable_size >= Data::HEADER_SIZE_BYTES
    }
}

impl View for TransferEntry {
    type V = TransferEntryView;

    closed spec fn view(&self) -> TransferEntryView {
        TransferEntryView {
            resend_frame: match self.resend_frame {
                Some(frame) => Some(frame@),
                None => None,
            },
            unreliable_size: self.unreliable_size as nat,
            sequence_id: self.sequence_id,
            last_send_time: self.last_send_time,
            send_count: self.send_count,
        }
    }
}

impl TransferEntry {
    /// A frame with reliable datagrams: `resend_frame` is sent again if it is lost, and
    /// `unreliable_size` bytes more were sent with it.
    pub fn new_reliable(
        resend_frame: Vec<u8>,
        unreliable_size: usize,
        sequence_id: u32,
        send_time: Instant,
    ) -> (entry: Self)
        ensures
            entry@ == TransferEntryView::first_sent(
                Some(resend_frame@),
                unreliable_size as nat,
                sequence_id,
                send_time,
            ),
    {
        Self {
            resend_frame: Some(resend_frame),
            unreliable_size,
            sequence_id,
            last_send_time: send_time,
            send_count: 1,
        }
    }

    /// A frame with unreliable datagrams only.
    pub fn new_unreliable(size: usize, sequence_id: u32, send_time: Instant) -> (entry: Self)
        ensures
            entry@ == TransferEntryView::first_sent(None, size as nat, sequence_id, send_time),
    {
        Self {
            resend_frame: None,
            unreliable_size: size,
            sequence_id,
            last_send_time: send_time,
            send_count: 1,
        }
    }

    /// An empty frame in place of one whose datagrams were given up.
    pub fn new_sentinel(sequence_id: u32, send_time: Instant) -> (entry: Self)
        ensures
            entry@ == TransferEntryView::first_sent(
                Some(sentinel_frame(sequence_id)),
                0,
                sequence_id,
                send_time,
            ),
    {
        let frame = Frame::Data(Data::new(true, sequence_id, Vec::new()));
        assert(frame.encoding() == sentinel_frame(sequence_id)) by {
            assert(frame->Data_0.entries@ =~= Seq::<DataEntry>::empty());
        }
        Self {
            resend_frame: Some(frame.to_bytes()),
            unreliable_size: 0,
            sequence_id,
            last_send_time: send_time,
            send_count: 1,
        }
    }

    pub fn sequence_id(&self) -> (sequence_id: u32)
        ensures
            sequence_id == self@.sequence_id,
    {
        self.sequence_id
    }

    pub fn size(&self) -> (size: usize)
        requires
            self@.size() <= usize::MAX,
        ensures
            size == self@.size(),
    {
        self.unreliable_size + match &self.resend_frame {
            Some(frame) => frame.len(),
            None => 0,
        }
    }

    pub fn mark_sent(&mut self, now: Instant)
        requires
            old(self)@.send_count < u32::MAX,
        ensures
            final(self)@ == old(self)@.sent_again(now),
    {
        self.last_send_time = now;
        self.send_count = self.send_count + 1;
        if self.send_count > MAX_SEND_COUNT {
            self.send_count = 0;
        }
    }

    pub fn should_resend(&self, now: Instant, timeout: Duration) -> (resend: bool)
        ensures
            resend == self@.timed_out(now, timeout),
            resend == (now.nanos - self@.last_send_time.nanos > (timeout.secs * 1_000_000_000
                + timeout.nanos) * self@.send_count),
    {
        proof {
            let span = timeout.secs * 1_000_000_000 + timeout.nanos;
            let count = self.send_count;
            assert(span * count >= 0) by (nonlinear_arith)
                requires
                    span >= 0,
                    count >= 0,
            ;
        }
        now.nanos_since(self.last_send_time) > timeout.nanos_times(self.send_count)
    }

    /// Handles the loss of the frame: gives up the unreliable datagrams and sends the rest again.
    /// Returns whether anything is left in flight.
    pub(crate) fn time_out(&mut self, now: Instant, sink: &mut Outbox) -> (in_flight: bool)
        requires
            old(self)@.send_count < u32::MAX,
        ensures
            match old(self)@.after_timeout(now) {
                Some(entry) => {
                    &&& in_flight
                    &&& final(self)@ == entry
                    &&& final(sink)@ == old(sink)@.push(entry.resend_frame->0)
                },
                None => {
                    &&& !in_flight
                    &&& final(sink)@ == old(sink)@
                },
            },
    {
        self.unreliable_size = 0;
        if self.resend_frame.is_none() {
            if self.sequence_id % SENTINEL_FRAME_SPACING == SENTINEL_FRAME_SPACING - 1 {
                *self = TransferEntry::new_sentinel(self.sequence_id, self.last_send_time);
            } else {
                return false;
            }
        }
        if let Some(frame) = &self.resend_frame {
            sink.send(frame.as_slice());
        }
        self.mark_sent(now);
        true
    }
}

} // verus!
