//! One end of a connection: what it sends, what it has in flight and what it acknowledges.
use crate::congestion_window::CongestionWindow;
use crate::frame::{data_ack_frame, entries_size, Data, DataAck, DataEntry, Frame};
use crate::outbox::Outbox;
use crate::send_queue::{
    all_fit, answers, lemma_select_is_filter, select, SendEntry, SendQueue, SendQueueView,
};
use crate::time::{Duration, Instant};
use crate::transfer_entry::TRANSFER_WINDOW_SIZE;
use crate::transfer_queue::{
    combined_frame, lemma_entry_for_size, TransferQueue, TransferQueueView,
};
use crate::MTU;
use std::collections::VecDeque;
use vstd::prelude::*;

verus! {

/// The number of sequence ids that one acknowledgement frame holds.
pub const MAX_ACK_IDS: usize = (MTU - DataAck::HEADER_SIZE_BYTES)
    / DataAck::SEQUENCE_ID_SIZE_BYTES;

/// One end of a connection.
#[derive(Debug)]
pub struct FrameIO {
    send_queue: SendQueue,
    transfer_queue: TransferQueue,
    ack_queue: VecDeque<u32>,
    recv_sequence_id: u32,
}

/// The state of one end: the datagrams that wait, the frames in flight, the sequence ids to
/// acknowledge and the sequence id that is expected next.
#[verifier::ext_equal]
pub struct FrameIOView {
    pub send: SendQueueView,
    pub transfer: TransferQueueView,
    pub acks: Seq<u32>,
    pub recv_sequence_id: u32,
}

/// Whether a frame with this sequence id is taken when `expected` is expected next: it may be at
/// most a transfer window behind, or less than a transfer window ahead.
pub open spec fn in_recv_window(expected: u32, sequence_id: u32) -> bool {
    expected.wrapping_sub(sequence_id) <= TRANSFER_WINDOW_SIZE || is_newer(expected, sequence_id)
}

/// Whether this sequence id is the one expected next or a later one.
pub open spec fn is_newer(expected: u32, sequence_id: u32) -> bool {
    sequence_id.wrapping_sub(expected) < TRANSFER_WINDOW_SIZE
}

/// The frames that acknowledge `ids`: as few as possible, in order.
pub open spec fn ack_frames(ids: Seq<u32>) -> Seq<Seq<u8>>
    decreases ids.len(),
{
    if ids.len() == 0 {
        Seq::empty()
    } else if ids.len() <= MAX_ACK_IDS {
        seq![data_ack_frame(ids)]
    } else {
        seq![data_ack_frame(ids.take(MAX_ACK_IDS as int))] + ack_frames(
            ids.skip(MAX_ACK_IDS as int),
        )
    }
}

/// The transfer queue after each of `ids` was acknowledged in turn.
pub open spec fn after_acks(queue: TransferQueueView, ids: Seq<u32>) -> TransferQueueView
    decreases ids.len(),
{
    if ids.len() == 0 {
        queue
    } else {
        after_acks(queue, ids.drop_last()).after_ack(ids.last())
    }
}

/// The datagrams of `entries` that are reliable, or those that are not, in order.
pub open spec fn datagrams(entries: Seq<SendEntry>, reliable: bool) -> Seq<DataEntry>
    decreases entries.len(),
{
    if entries.len() == 0 {
        Seq::empty()
    } else if entries.last().reliable == reliable {
        datagrams(entries.drop_last(), reliable).push(entries.last().data)
    } else {
        datagrams(entries.drop_last(), reliable)
    }
}

/// How many leading `entries` still fit a frame of at most `limit` bytes of which `used` are
/// taken.
pub open spec fn fitting(entries: Seq<SendEntry>, used: nat, limit: nat) -> nat
    decreases entries.len(),
{
    if entries.len() == 0 || used + entries[0].data.bytes@.len() > limit {
        0
    } else {
        1 + fitting(entries.skip(1), used + entries[0].data.bytes@.len(), limit)
    }
}

/// The smaller of two numbers.
pub open spec fn min(a: nat, b: nat) -> nat {
    if a <= b {
        a
    } else {
        b
    }
}

/// How many leading `entries` go into the next frame: as many as fit the frame size limit and
/// the congestion window.
pub open spec fn next_frame_len(queue: TransferQueueView, entries: Seq<SendEntry>) -> nat {
    fitting(entries, Data::HEADER_SIZE_BYTES as nat, min(MTU as nat, queue.free_space()))
}

/// What comes of sending: the frames in flight, how many datagrams left, and the frames sent.
#[verifier::ext_equal]
pub struct Transmission {
    pub transfer: TransferQueueView,
    pub taken: nat,
    pub frames: Seq<Seq<u8>>,
}

/// Sends `entries` in order, frame by frame, until the transfer window is used up or the next
/// datagram does not fit the congestion window.
pub open spec fn transmit(
    queue: TransferQueueView,
    entries: Seq<SendEntry>,
    now: Instant,
) -> Transmission
    decreases entries.len(),
{
    let n = next_frame_len(queue, entries);
    if !queue.can_send() || n == 0 {
        Transmission { transfer: queue, taken: 0, frames: Seq::empty() }
    } else {
        let rel_dgs = datagrams(entries.take(n as int), true);
        let unrel_dgs = datagrams(entries.take(n as int), false);
        proof {
            lemma_fitting_bound(
                entries,
                Data::HEADER_SIZE_BYTES as nat,
                min(MTU as nat, queue.free_space()),
            );
        }
        let rest = transmit(
            queue.after_send(rel_dgs, unrel_dgs, now),
            entries.skip(n as int),
            now,
        );
        Transmission {
            transfer: rest.transfer,
            taken: n + rest.taken,
            frames: seq![combined_frame(queue.next_sequence_id, rel_dgs, unrel_dgs)] + rest.frames,
        }
    }
}

/// Whether sending `entries` comes to one that fits the congestion window, beside the datagrams
/// that share its frame, but no frame at all.
pub open spec fn reaches_oversized(
    queue: TransferQueueView,
    entries: Seq<SendEntry>,
    now: Instant,
) -> bool {
    let sent = transmit(queue, entries, now);
    let size = entries[sent.taken as int].data.bytes@.len();
    &&& sent.taken < entries.len()
    &&& Data::HEADER_SIZE_BYTES + size > MTU
    &&& if sent.taken > 0 {
        size <= sent.transfer.free_space()
    } else {
        queue.can_send() && Data::HEADER_SIZE_BYTES + size <= queue.free_space()
    }
}

impl FrameIOView {
    pub open spec fn wf(self) -> bool {
        self.transfer.wf()
    }

    /// Every datagram that waits fits a frame of its own.
    pub open spec fn datagrams_fit(self) -> bool {
        all_fit(self.send.order())
    }

    /// The state with one more datagram that waits, behind those of its priority.
    pub open spec fn with_datagram(self, entry: SendEntry, high_priority: bool) -> FrameIOView {
        FrameIOView {
            send: if high_priority {
                SendQueueView { high: self.send.high.push(entry), ..self.send }
            } else {
                SendQueueView { low: self.send.low.push(entry), ..self.send }
            },
            ..self
        }
    }

    /// The state after a data frame was received. A frame in the receive window is acknowledged
    /// if it asks for it, and a newer one moves the window.
    pub open spec fn after_data_frame(self, ack: bool, sequence_id: u32) -> FrameIOView {
        if in_recv_window(self.recv_sequence_id, sequence_id) {
            FrameIOView {
                recv_sequence_id: if is_newer(self.recv_sequence_id, sequence_id) {
                    sequence_id.wrapping_add(1)
                } else {
                    self.recv_sequence_id
                },
                acks: if ack {
                    self.acks.push(sequence_id)
                } else {
                    self.acks
                },
                ..self
            }
        } else {
            self
        }
    }

    /// What the datagrams that wait come to, once the timeouts are handled.
    pub open spec fn transmission(self, now: Instant, timeout: Duration) -> Transmission {
        transmit(self.transfer.after_flush(now, timeout), self.send.order(), now)
    }

    /// The state after a flush. Only reliable datagrams wait any longer.
    pub open spec fn after_flush(self, now: Instant, timeout: Duration) -> FrameIOView {
        FrameIOView {
            send: self.send.without_front(self.transmission(now, timeout).taken).reliable_only(),
            transfer: self.transmission(now, timeout).transfer,
            acks: Seq::empty(),
            ..self
        }
    }

    /// The frames that a flush sends: acknowledgements, then frames that timed out, then new
    /// ones.
    pub open spec fn flushed_frames(self, now: Instant, timeout: Duration) -> Seq<Seq<u8>> {
        ack_frames(self.acks) + self.transfer.resent(now, timeout) + self.transmission(
            now,
            timeout,
        ).frames
    }
}

impl View for FrameIO {
    type V = FrameIOView;

    closed spec fn view(&self) -> FrameIOView {
        FrameIOView {
            send: self.send_queue@,
            transfer: self.transfer_queue@,
            acks: self.ack_queue@,
            recv_sequence_id: self.recv_sequence_id,
        }
    }
}

/// The number of fitting entries is at most the number of entries.
pub proof fn lemma_fitting_bound(entries: Seq<SendEntry>, used: nat, limit: nat)
    ensures
        fitting(entries, used, limit) <= entries.len(),
    decreases entries.len(),
{
    if entries.len() > 0 {
        lemma_fitting_bound(entries.skip(1), used + entries[0].data.bytes@.len(), limit);
    }
}

/// The order of what is left when the first `n` entries have left.
pub proof fn lemma_without_front(queue: SendQueueView, n: nat, m: nat)
    requires
        n + m <= queue.order().len(),
    ensures
        queue.without_front(n).order() == queue.order().skip(n as int),
        queue.without_front(n).without_front(m) == queue.without_front(n + m),
{
    let rest = queue.without_front(n);
    assert(rest.order() =~= queue.order().skip(n as int));
    assert(rest.without_front(m).high =~= queue.without_front(n + m).high);
    assert(rest.without_front(m).low =~= queue.without_front(n + m).low);
}

/// A queue fits with one more entry if it fitted before and the entry fits.
proof fn lemma_enqueue_fit(queue: SendQueueView, entry: SendEntry)
    ensures
        ({
            let fit = all_fit(queue.order()) && Data::HEADER_SIZE_BYTES + entry.data.bytes@.len()
                <= MTU;
            &&& fit == all_fit(queue.high.push(entry) + queue.low)
            &&& fit == all_fit(queue.high + queue.low.push(entry))
        }),
{
    let n = queue.high.len() as int;
    let order = queue.order();
    let high = queue.high.push(entry) + queue.low;
    let low = queue.high + queue.low.push(entry);
    assert(high[n] == entry);
    assert(low[order.len() as int] == entry);
    assert forall|i: int| 0 <= i < order.len() implies #[trigger] order[i] == high[if i < n {
        i
    } else {
        i + 1
    }] && order[i] == low[i] by {}
    assert forall|i: int| 0 <= i < high.len() && i != n implies #[trigger] high[i]
        == order[if i < n {
        i
    } else {
        i - 1
    }] by {}
    assert forall|i: int| 0 <= i < order.len() implies #[trigger] low[i] == order[i] by {}
}

/// What is left of a send queue that fits still fits.
proof fn lemma_rest_fits(queue: SendQueueView, n: nat)
    requires
        all_fit(queue.order()),
        n <= queue.order().len(),
    ensures
        all_fit(queue.without_front(n).reliable_only().order()),
{
    let waiting = queue.without_front(n);
    lemma_without_front(queue, n, 0);
    let p = |e: SendEntry| e.reliable;
    let after = waiting.reliable_only();
    Seq::filter_distributes_over_add(waiting.high, waiting.low, p);
    assert forall|i: int| 0 <= i < after.order().len() implies Data::HEADER_SIZE_BYTES + (
    #[trigger] after.order()[i]).data.bytes@.len() <= MTU by {
        let entry = after.order()[i];
        assert(waiting.order().filter(p).contains(entry));
        waiting.order().lemma_filter_contains_rev(p, entry);
        let j = choose|j: int| 0 <= j < waiting.order().len() && waiting.order()[j] == entry;
        assert(queue.order()[n + j] == entry);
    }
}

/// No more datagrams leave than wait.
pub proof fn lemma_transmit_taken(queue: TransferQueueView, entries: Seq<SendEntry>, now: Instant)
    ensures
        transmit(queue, entries, now).taken <= entries.len(),
    decreases entries.len(),
{
    let n = next_frame_len(queue, entries);
    lemma_fitting_bound(
        entries,
        Data::HEADER_SIZE_BYTES as nat,
        min(MTU as nat, queue.free_space()),
    );
    if queue.can_send() && n > 0 {
        let rel_dgs = datagrams(entries.take(n as int), true);
        let unrel_dgs = datagrams(entries.take(n as int), false);
        lemma_transmit_taken(
            queue.after_send(rel_dgs, unrel_dgs, now),
            entries.skip(n as int),
            now,
        );
    }
}

/// One more entry that fits leaves the others to fit beside it.
proof fn lemma_fitting_step(entries: Seq<SendEntry>, n: int, used: nat, limit: nat)
    requires
        0 <= n < entries.len(),
        used + entries[n].data.bytes@.len() <= limit,
    ensures
        fitting(entries.skip(n), used, limit) == 1 + fitting(
            entries.skip(n + 1),
            used + entries[n].data.bytes@.len(),
            limit,
        ),
{
    assert(entries.skip(n).skip(1) =~= entries.skip(n + 1));
}

/// One more entry adds its datagram to those of its kind.
proof fn lemma_datagrams_step(entries: Seq<SendEntry>, n: int)
    requires
        0 <= n < entries.len(),
    ensures
        datagrams(entries.take(n + 1), entries[n].reliable) == datagrams(
            entries.take(n),
            entries[n].reliable,
        ).push(entries[n].data),
        datagrams(entries.take(n + 1), !entries[n].reliable) == datagrams(
            entries.take(n),
            !entries[n].reliable,
        ),
        entries_size(datagrams(entries.take(n + 1), true)) + entries_size(
            datagrams(entries.take(n + 1), false),
        ) == entries_size(datagrams(entries.take(n), true)) + entries_size(
            datagrams(entries.take(n), false),
        ) + entries[n].data.bytes@.len(),
{
    assert(entries.take(n + 1).drop_last() =~= entries.take(n));
    let kind = datagrams(entries.take(n), entries[n].reliable);
    assert(kind.push(entries[n].data).drop_last() =~= kind);
}

/// The datagrams of the next frame, and how large it is.
struct FrameContents {
    rel_dgs: Vec<DataEntry>,
    unrel_dgs: Vec<DataEntry>,
    frame_size: usize,
    window_full: bool,
    oversized: bool,
}

/// Takes the datagrams of the next frame out of `queue`: as many as fit the frame size limit and
/// `bytes_remaining`. `window_full` tells that the next datagram is too large for
/// `bytes_remaining`, and `oversized` that it is not, but too large for any frame.
fn fill_frame(queue: &mut SendQueue, bytes_remaining: usize) -> (contents: FrameContents)
    ensures
        ({
            let entries = old(queue)@.order();
            let n = fitting(
                entries,
                Data::HEADER_SIZE_BYTES as nat,
                min(MTU as nat, bytes_remaining as nat),
            );
            &&& n <= entries.len()
            &&& final(queue)@ == old(queue)@.without_front(n)
            &&& contents.rel_dgs@ == datagrams(entries.take(n as int), true)
            &&& contents.unrel_dgs@ == datagrams(entries.take(n as int), false)
            &&& contents.frame_size == Data::HEADER_SIZE_BYTES + entries_size(
                contents.rel_dgs@,
            ) + entries_size(contents.unrel_dgs@)
            &&& contents.frame_size <= MTU
            &&& n > 0 ==> contents.frame_size <= bytes_remaining
            &&& n > 0 <==> contents.rel_dgs@.len() > 0 || contents.unrel_dgs@.len() > 0
            &&& contents.window_full == (n < entries.len() && contents.frame_size
                + entries[n as int].data.bytes@.len() > bytes_remaining)
            &&& contents.oversized == (n < entries.len() && !contents.window_full
                && Data::HEADER_SIZE_BYTES + entries[n as int].data.bytes@.len() > MTU)
        }),
{
    let ghost before = queue@;
    let ghost entries = queue@.order();
    let ghost limit = min(MTU as nat, bytes_remaining as nat);
    let ghost mut n: nat = 0;
    let mut rel_dgs: Vec<DataEntry> = Vec::new();
    let mut unrel_dgs: Vec<DataEntry> = Vec::new();
    let mut frame_size: usize = Data::HEADER_SIZE_BYTES;
    let mut window_full = false;
    let mut oversized = false;
    let mut frame_full = false;
    proof {
        assert(entries.take(0) =~= Seq::empty());
        assert(entries.skip(0) =~= entries);
        assert(before.without_front(0).high =~= before.high);
    }
    while !window_full && !oversized && !frame_full && !queue.is_empty()
        invariant
            entries == before.order(),
            limit == min(MTU as nat, bytes_remaining as nat),
            n <= entries.len(),
            queue@ == before.without_front(n),
            rel_dgs@ == datagrams(entries.take(n as int), true),
            unrel_dgs@ == datagrams(entries.take(n as int), false),
            rel_dgs@.len() + unrel_dgs@.len() == n,
            frame_size == Data::HEADER_SIZE_BYTES + entries_size(rel_dgs@) + entries_size(
                unrel_dgs@,
            ),
            frame_size <= MTU,
            n > 0 ==> frame_size <= bytes_remaining,
            fitting(entries, Data::HEADER_SIZE_BYTES as nat, limit) == n + fitting(
                entries.skip(n as int),
                frame_size as nat,
                limit,
            ),
            window_full ==> n < entries.len() && frame_size + entries[n as int].data.bytes@.len()
                > bytes_remaining,
            oversized ==> n < entries.len() && frame_size + entries[n as int].data.bytes@.len()
                <= bytes_remaining && Data::HEADER_SIZE_BYTES + entries[n as int].data.bytes@.len()
                > MTU,
            frame_full ==> n < entries.len() && bytes_remaining >= frame_size
                + entries[n as int].data.bytes@.len() > MTU && Data::HEADER_SIZE_BYTES
                + entries[n as int].data.bytes@.len() <= MTU,
        decreases
                entries.len() - n,
                if window_full || oversized || frame_full {
                    0int
                } else {
                    1int
                },
    {
        proof {
            lemma_without_front(before, n, 0);
        }
        let encoded_size: usize = match queue.front() {
            Some(entry) => entry.data.encoded_size(),
            None => 0,
        };
        proof {
            assert(queue@.order() == entries.skip(n as int));
            assert(entries.skip(n as int)[0] == entries[n as int]);
        }
        if frame_size > bytes_remaining || encoded_size > bytes_remaining - frame_size {
            // Too large for the congestion window
            window_full = true;
        } else if encoded_size > MTU - Data::HEADER_SIZE_BYTES {
            // Too large for any frame
            oversized = true;
        } else if frame_size + encoded_size > MTU {
            // Too large for this frame
            frame_full = true;
        } else if let Some(entry) = queue.pop_front() {
            proof {
                lemma_without_front(before, n, 1);
                lemma_fitting_step(entries, n as int, frame_size as nat, limit);
                lemma_datagrams_step(entries, n as int);
                n = n + 1;
            }
            if entry.reliable {
                rel_dgs.push(entry.data);
            } else {
                unrel_dgs.push(entry.data);
            }
            frame_size = frame_size + encoded_size;
        }
    }
    proof {
        lemma_without_front(before, n, 0);
        assert(fitting(entries.skip(n as int), frame_size as nat, limit) == 0);
    }
    FrameContents { rel_dgs, unrel_dgs, frame_size, window_full, oversized }
}

/// Takes the ids for the next acknowledgement frame out of `queue`: as many as it holds.
fn take_acks(queue: &mut VecDeque<u32>) -> (ids: Vec<u32>)
    ensures
        ({
            let n = min(old(queue)@.len(), MAX_ACK_IDS as nat) as int;
            &&& ids@ == old(queue)@.take(n)
            &&& final(queue)@ == old(queue)@.skip(n)
        }),
{
    let ghost all = queue@;
    let mut ids: Vec<u32> = Vec::new();
    while ids.len() < MAX_ACK_IDS && queue.len() > 0
        invariant
            ids@.len() <= MAX_ACK_IDS,
            ids@ + queue@ == all,
        decreases queue@.len(),
    {
        let ghost before = ids@ + queue@;
        if let Some(id) = queue.pop_front() {
            ids.push(id);
        }
        assert(ids@ + queue@ =~= before);
    }
    proof {
        let n = min(all.len(), MAX_ACK_IDS as nat) as int;
        assert(ids@ =~= all.take(n));
        assert(queue@ =~= all.skip(n));
    }
    ids
}

impl FrameIO {
    pub open spec fn wf(self) -> bool {
        self@.wf()
    }

    pub fn new(tx_sequence_id: u32, rx_sequence_id: u32, _max_tx_bandwidth: usize) -> (io: Self)
        ensures
            io.wf(),
            io@.transfer.entries_wf(),
            io@.datagrams_fit(),
            io@ == (FrameIOView {
                send: SendQueueView { high: Seq::empty(), low: Seq::empty() },
                transfer: TransferQueueView {
                    window: CongestionWindow::MIN_SIZE as nat,
                    entries: Seq::empty(),
                    size: 0,
                    next_sequence_id: tx_sequence_id,
                    base_sequence_id: tx_sequence_id,
                },
                acks: Seq::empty(),
                recv_sequence_id: rx_sequence_id,
            }),
    {
        Self {
            send_queue: SendQueue::new(),
            transfer_queue: TransferQueue::new(tx_sequence_id),
            ack_queue: VecDeque::new(),
            recv_sequence_id: rx_sequence_id,
        }
    }

    /// Adds a datagram to those that wait.
    pub fn enqueue_datagram(&mut self, data: DataEntry, reliable: bool, high_priority: bool)
        ensures
            final(self)@ == old(self)@.with_datagram(SendEntry { data, reliable }, high_priority),
            final(self)@.datagrams_fit() == (old(self)@.datagrams_fit()
                && Data::HEADER_SIZE_BYTES + data.bytes@.len() <= MTU),
    {
        proof {
            lemma_enqueue_fit(self@.send, SendEntry { data, reliable });
        }
        if high_priority {
            self.send_queue.push_high_priority(SendEntry::new(data, reliable));
        } else {
            self.send_queue.push_low_priority(SendEntry::new(data, reliable));
        }
    }

    /// Takes a data frame that was received, and returns its datagrams if it lies in the receive
    /// window.
    pub fn handle_data_frame(&mut self, data: Data) -> (entries: Option<Vec<DataEntry>>)
        ensures
            entries == (if in_recv_window(old(self)@.recv_sequence_id, data.sequence_id) {
                Some(data.entries)
            } else {
                None
            }),
            final(self)@ == old(self)@.after_data_frame(data.ack, data.sequence_id),
            old(self)@.acks.is_prefix_of(final(self)@.acks),
            !data.ack ==> final(self)@.acks == old(self)@.acks,
            data.ack && entries is Some ==> final(self)@.acks == old(self)@.acks.push(
                data.sequence_id,
            ),
            final(self)@.send == old(self)@.send,
            final(self)@.transfer == old(self)@.transfer,
    {
        let recv_window_min: u32 = self.recv_sequence_id.wrapping_sub(TRANSFER_WINDOW_SIZE);
        let recv_window_size: u32 = 2 * TRANSFER_WINDOW_SIZE;

        if data.sequence_id.wrapping_sub(recv_window_min) < recv_window_size {
            if data.sequence_id.wrapping_sub(self.recv_sequence_id) < TRANSFER_WINDOW_SIZE {
                self.recv_sequence_id = data.sequence_id.wrapping_add(1);
            }
            if data.ack {
                self.ack_queue.push_back(data.sequence_id);
            }
            Some(data.entries)
        } else {
            None
        }
    }

    /// Takes an acknowledgement that was received.
    pub fn handle_data_ack(&mut self, data_ack: DataAck)
        requires
            old(self).wf(),
        ensures
            final(self).wf(),
            old(self)@.transfer.entries_wf() ==> final(self)@.transfer.entries_wf(),
            final(self)@ == (FrameIOView {
                transfer: after_acks(old(self)@.transfer, data_ack.sequence_ids@),
                ..old(self)@
            }),
    {
        let ids = data_ack.sequence_ids;
        let mut i: usize = 0;
        assert(ids@.take(0) =~= Seq::empty());
        while i < ids.len()
            invariant
                i <= ids@.len(),
                self.wf(),
                old(self)@.transfer.entries_wf() ==> self@.transfer.entries_wf(),
                self@ == (FrameIOView {
                    transfer: after_acks(old(self)@.transfer, ids@.take(i as int)),
                    ..old(self)@
                }),
            decreases ids@.len() - i,
        {
            self.transfer_queue.acknowledge_frame(ids[i]);
            assert(ids@.take(i + 1).drop_last() =~= ids@.take(i as int));
            i += 1;
        }
        assert(ids@.take(i as int) =~= ids@);
    }

    /// Acknowledges the frames that were received.
    fn send_acks(&mut self, sink: &mut Outbox)
        ensures
            final(self)@ == (FrameIOView { acks: Seq::empty(), ..old(self)@ }),
            final(sink)@ == old(sink)@ + ack_frames(old(self)@.acks),
    {
        while self.ack_queue.len() > 0
            invariant
                self@.send == old(self)@.send,
                self@.transfer == old(self)@.transfer,
                self@.recv_sequence_id == old(self)@.recv_sequence_id,
                sink@ + ack_frames(self@.acks) == old(sink)@ + ack_frames(old(self)@.acks),
            decreases self.ack_queue@.len(),
        {
            let ghost queued = self@.acks;
            let ghost sent = sink@;
            let sequence_ids = take_acks(&mut self.ack_queue);
            let frame = Frame::DataAck(DataAck { sequence_ids });
            let frame_data = frame.to_bytes();
            sink.send(frame_data.as_slice());
            proof {
                if queued.len() <= MAX_ACK_IDS {
                    assert(queued.take(queued.len() as int) =~= queued);
                    assert(self@.acks =~= Seq::empty());
                }
                assert(sink@ + ack_frames(self@.acks) =~= sent + ack_frames(queued));
            }
        }
        assert(self@.acks =~= Seq::empty());
        assert(sink@ + ack_frames(self@.acks) =~= sink@);
    }

    /// Sends as many of the waiting datagrams as possible, in order, subject to the frame size
    /// limit, the congestion window and the transfer window. The unreliable datagrams do not wait
    /// any longer, whether or not they were sent. Sending stops at a datagram that is too large
    /// for any frame; `fit` tells that it came to none.
    pub fn try_send_data(&mut self, now: Instant, sink: &mut Outbox) -> (fit: bool)
        requires
            old(self).wf(),
        ensures
            fit == !reaches_oversized(old(self)@.transfer, old(self)@.send.order(), now),
            final(self).wf(),
            old(self)@.transfer.entries_wf() ==> final(self)@.transfer.entries_wf(),
            ({
                let sent = transmit(old(self)@.transfer, old(self)@.send.order(), now);
                &&& final(self)@ == (FrameIOView {
                    send: old(self)@.send.without_front(sent.taken).reliable_only(),
                    transfer: sent.transfer,
                    ..old(self)@
                })
                &&& final(sink)@ == old(sink)@ + sent.frames
            }),
    {
        let ghost entries = self@.send.order();
        let ghost whole = transmit(self@.transfer, entries, now);
        let ghost mut taken: nat = 0;
        let mut bytes_remaining: usize = self.transfer_queue.free_space();
        let mut build_more_frames = true;
        let mut fit = true;
        proof {
            assert(entries.skip(0) =~= entries);
            assert(self@.send.without_front(0).high =~= self@.send.high);
        }
        while build_more_frames && self.transfer_queue.can_send() && !self.send_queue.is_empty()
            invariant
                self.wf(),
                old(self)@.transfer.entries_wf() ==> self@.transfer.entries_wf(),
                entries == old(self)@.send.order(),
                whole == transmit(old(self)@.transfer, entries, now),
                taken <= entries.len(),
                bytes_remaining == self@.transfer.free_space(),
                self@ == (FrameIOView {
                    send: old(self)@.send.without_front(taken),
                    transfer: self@.transfer,
                    ..old(self)@
                }),
                ({
                    let rest = transmit(self@.transfer, entries.skip(taken as int), now);
                    &&& whole.transfer == rest.transfer
                    &&& whole.taken == taken + rest.taken
                    &&& old(sink)@ + whole.frames == sink@ + rest.frames
                }),
                taken == 0 ==> self@.transfer == old(self)@.transfer,
                build_more_frames ==> fit,
                build_more_frames && 0 < taken < entries.len() ==> Data::HEADER_SIZE_BYTES
                    + entries[taken as int].data.bytes@.len() <= MTU,
                !build_more_frames ==> next_frame_len(
                    self@.transfer,
                    entries.skip(taken as int),
                ) == 0 && fit == !reaches_oversized(old(self)@.transfer, entries, now),
            decreases
                    entries.len() - taken,
                    if build_more_frames {
                        1int
                    } else {
                        0int
                    },
        {
            let ghost left = entries.skip(taken as int);
            let ghost queue = self@.transfer;
            let ghost n = next_frame_len(queue, left);
            let ghost sent = sink@;
            proof {
                lemma_without_front(old(self)@.send, taken, 0);
            }
            let contents = fill_frame(&mut self.send_queue, bytes_remaining);
            if contents.oversized {
                fit = false;
            }
            if contents.window_full || contents.oversized {
                build_more_frames = false;
            }
            if contents.rel_dgs.len() == 0 && contents.unrel_dgs.len() == 0 {
                // Not even one datagram fits
                build_more_frames = false;
                proof {
                    lemma_without_front(old(self)@.send, taken, 0);
                }
            } else {
                let ghost rel_dgs = contents.rel_dgs@;
                let ghost unrel_dgs = contents.unrel_dgs@;
                proof {
                    lemma_entry_for_size(queue.next_sequence_id, rel_dgs, unrel_dgs, now);
                    lemma_without_front(old(self)@.send, taken, n);
                    assert(left.skip(n as int) =~= entries.skip((taken + n) as int));
                    taken = taken + n;
                }
                bytes_remaining = bytes_remaining - contents.frame_size;
                self.transfer_queue.send_frame(contents.rel_dgs, contents.unrel_dgs, now, sink);
                proof {
                    let rest = transmit(self@.transfer, entries.skip(taken as int), now);
                    let frame = combined_frame(queue.next_sequence_id, rel_dgs, unrel_dgs);
                    assert(sent + (seq![frame] + rest.frames) =~= sent.push(frame) + rest.frames);
                }
            }
        }
        proof {
            lemma_without_front(old(self)@.send, taken, 0);
            assert(next_frame_len(self@.transfer, entries.skip(taken as int)) == 0
                || !self@.transfer.can_send());
            assert(sink@ + Seq::<Seq<u8>>::empty() =~= sink@);
        }

        let ghost waiting = self@.send;
        let reliable = |entry: &SendEntry| -> (b: bool)
            ensures
                b == entry.reliable,
            { entry.reliable };
        self.send_queue.retain(reliable);
        proof {
            let p = |e: SendEntry| e.reliable;
            let kept_high = choose|kept: Seq<bool>| #[trigger]
                answers(reliable, waiting.high, kept) && self@.send.high == select(
                    waiting.high,
                    kept,
                );
            let kept_low = choose|kept: Seq<bool>| #[trigger]
                answers(reliable, waiting.low, kept) && self@.send.low == select(
                    waiting.low,
                    kept,
                );
            lemma_select_is_filter(waiting.high, kept_high, p);
            lemma_select_is_filter(waiting.low, kept_low, p);
        }
        fit
    }

    /// Sends as many of the waiting datagrams as possible, as `try_send_data` does. Every datagram
    /// that waits must fit a frame of its own.
    fn send_data(&mut self, now: Instant, sink: &mut Outbox)
        requires
            old(self).wf(),
            old(self)@.datagrams_fit(),
        ensures
            final(self).wf(),
            old(self)@.transfer.entries_wf() ==> final(self)@.transfer.entries_wf(),
            final(self)@.datagrams_fit(),
            ({
                let sent = transmit(old(self)@.transfer, old(self)@.send.order(), now);
                &&& final(self)@ == (FrameIOView {
                    send: old(self)@.send.without_front(sent.taken).reliable_only(),
                    transfer: sent.transfer,
                    ..old(self)@
                })
                &&& final(sink)@ == old(sink)@ + sent.frames
            }),
    {
        proof {
            lemma_transmit_taken(self@.transfer, self@.send.order(), now);
            lemma_rest_fits(
                self@.send,
                transmit(self@.transfer, self@.send.order(), now).taken,
            );
        }
        let fit = self.try_send_data(now, sink);
        assert(fit);
    }

    /// Acknowledges what was received and handles the frames that timed out.
    pub fn flush_transfers(&mut self, now: Instant, timeout: Duration, sink: &mut Outbox)
        requires
            old(self).wf(),
            old(self)@.transfer.entries_wf(),
        ensures
            final(self).wf(),
            final(self)@.transfer.entries_wf(),
            final(self)@ == (FrameIOView {
                transfer: old(self)@.transfer.after_flush(now, timeout),
                acks: Seq::empty(),
                ..old(self)@
            }),
            final(sink)@ == old(sink)@ + ack_frames(old(self)@.acks) + old(
                self,
            )@.transfer.resent(now, timeout),
    {
        self.send_acks(sink);
        self.transfer_queue.flush(now, timeout, sink);
    }

    /// Acknowledges what was received, handles the frames that timed out, and sends as many of
    /// the waiting datagrams as possible: none, if the next one does not fit the congestion
    /// window. Every datagram that waits must fit a frame of its own.
    pub fn flush(&mut self, now: Instant, timeout: Duration, sink: &mut Outbox)
        requires
            old(self).wf(),
            old(self)@.transfer.entries_wf(),
            old(self)@.datagrams_fit(),
        ensures
            final(self).wf(),
            final(self)@.transfer.entries_wf(),
            final(self)@.datagrams_fit(),
            final(self)@ == old(self)@.after_flush(now, timeout),
            final(sink)@ == old(sink)@ + old(self)@.flushed_frames(now, timeout),
    {
        self.flush_transfers(now, timeout, sink);
        self.send_data(now, sink);
        assert(sink@ =~= old(sink)@ + old(self)@.flushed_frames(now, timeout));
    }

    /// Whether every datagram that waits fits a frame of its own.
    pub fn datagrams_fit(&self) -> (fit: bool)
        ensures
            fit == self@.datagrams_fit(),
    {
        self.send_queue.datagrams_fit()
    }

    /// Whether nothing waits and nothing is in flight.
    pub fn is_idle(&self) -> (idle: bool)
        ensures
            idle == (self@.send.order().len() == 0 && self@.transfer.entries.len() == 0),
    {
        self.send_queue.is_empty() && self.transfer_queue.is_empty()
    }
}

} // verus!
