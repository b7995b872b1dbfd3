//! The frames in flight, and the windows that limit them.
use crate::congestion_window::{
    window_after_ack, window_after_nack, window_in_bounds, CongestionWindow,
};
use crate::frame::{
    data_frame, entries_size, lemma_data_frame_len, lemma_entries_size_add, Data, DataEntry,
};
use crate::outbox::Outbox;
use crate::time::{Duration, Instant};
use crate::transfer_entry::{TransferEntry, TransferEntryView, TRANSFER_WINDOW_SIZE};
use std::collections::VecDeque;
use vstd::prelude::*;

verus! {

/// The frames in flight, from the oldest to the newest. Their sequence ids lie in a window that
/// starts at the base id and ends before the next id.
#[derive(Debug)]
pub struct TransferQueue {
    congestion_window: CongestionWindow,
    entries: VecDeque<TransferEntry>,
    size: usize,
    next_sequence_id: u32,
    base_sequence_id: u32,
}

/// The contents of a transfer queue. `size` counts the bytes in flight.
#[verifier::ext_equal]
pub struct TransferQueueView {
    pub window: nat,
    pub entries: Seq<TransferEntryView>,
    pub size: nat,
    pub next_sequence_id: u32,
    pub base_sequence_id: u32,
}

/// The bytes that `entries` have in flight.
pub open spec fn total_size(entries: Seq<TransferEntryView>) -> nat
    decreases entries.len(),
{
    if entries.len() == 0 {
        0
    } else {
        total_size(entries.drop_last()) + entries.last().size()
    }
}

/// The sequence ids of `entries` ascend, counted from `base`.
pub open spec fn ids_ascend(entries: Seq<TransferEntryView>, base: u32) -> bool {
    forall|i: int, j: int|
        #![trigger entries[i], entries[j]]
        0 <= i < j < entries.len() ==> entries[i].sequence_id.wrapping_sub(base)
            < entries[j].sequence_id.wrapping_sub(base)
}

/// How far a flush has come: the congestion window, the bytes that it leaves room for, the
/// entries that stay in flight and the frames that were sent again.
#[verifier::ext_equal]
pub struct FlushState {
    pub window: nat,
    pub cumulative_size: nat,
    pub entries: Seq<TransferEntryView>,
    pub sent: Seq<Seq<u8>>,
}

impl FlushState {
    /// The state after one more entry. An entry beyond the congestion window is left alone. Each
    /// timeout shrinks the window.
    pub open spec fn step(
        self,
        entry: TransferEntryView,
        now: Instant,
        timeout: Duration,
    ) -> FlushState {
        if self.cumulative_size + entry.size() > self.window {
            FlushState { entries: self.entries.push(entry), ..self }
        } else if !entry.timed_out(now, timeout) {
            FlushState {
                cumulative_size: self.cumulative_size + entry.size(),
                entries: self.entries.push(entry),
                ..self
            }
        } else {
            match entry.after_timeout(now) {
                Some(left) => FlushState {
                    window: window_after_nack(self.window),
                    cumulative_size: self.cumulative_size + left.size(),
                    entries: self.entries.push(left),
                    sent: self.sent.push(left.resend_frame->0),
                },
                None => FlushState { window: window_after_nack(self.window), ..self },
            }
        }
    }
}

/// The state of a flush after `entries`, from the first to the last.
pub open spec fn flush_entries(
    entries: Seq<TransferEntryView>,
    window: nat,
    now: Instant,
    timeout: Duration,
) -> FlushState
    decreases entries.len(),
{
    if entries.len() == 0 {
        FlushState {
            window,
            cumulative_size: 0,
            entries: Seq::empty(),
            sent: Seq::empty(),
        }
    } else {
        flush_entries(entries.drop_last(), window, now, timeout).step(entries.last(), now, timeout)
    }
}

/// The bytes of the frame that carries these datagrams, the reliable ones first. A frame without
/// reliable datagrams asks for no acknowledgement.
pub open spec fn combined_frame(
    sequence_id: u32,
    rel_dgs: Seq<DataEntry>,
    unrel_dgs: Seq<DataEntry>,
) -> Seq<u8> {
    data_frame(rel_dgs.len() > 0, sequence_id, rel_dgs + unrel_dgs)
}

/// The bytes to send again if the frame that carries these datagrams is lost: the frame with
/// the reliable ones alone.
pub open spec fn reliable_frame(sequence_id: u32, rel_dgs: Seq<DataEntry>) -> Option<Seq<u8>> {
    if rel_dgs.len() > 0 {
        Some(data_frame(true, sequence_id, rel_dgs))
    } else {
        None
    }
}

/// The entry for the frame that carries these datagrams. Lost, it leaves the reliable ones in
/// flight.
pub open spec fn entry_for(
    sequence_id: u32,
    rel_dgs: Seq<DataEntry>,
    unrel_dgs: Seq<DataEntry>,
    now: Instant,
) -> TransferEntryView {
    let resend_frame = reliable_frame(sequence_id, rel_dgs);
    let resend_size = match resend_frame {
        Some(frame) => frame.len(),
        None => 0,
    };
    TransferEntryView::first_sent(
        resend_frame,
        (combined_frame(sequence_id, rel_dgs, unrel_dgs).len() - resend_size) as nat,
        sequence_id,
        now,
    )
}

impl TransferQueueView {
    /// The congestion window is in bounds; the byte count is that of the entries; the ids in
    /// flight ascend and lie between the base id and the next id, which are at most a transfer
    /// window apart.
    pub open spec fn wf(self) -> bool {
        &&& window_in_bounds(self.window)
        &&& self.size == total_size(self.entries)
        &&& self.size <= CongestionWindow::MAX_SIZE
        &&& self.next_sequence_id.wrapping_sub(self.base_sequence_id) <= TRANSFER_WINDOW_SIZE
        &&& ids_ascend(self.entries, self.base_sequence_id)
        &&& forall|i: int|
            #![trigger self.entries[i]]
            0 <= i < self.entries.len() ==> self.entries[i].sequence_id.wrapping_sub(
                self.base_sequence_id,
            ) < self.next_sequence_id.wrapping_sub(self.base_sequence_id)
    }

    /// The timeout of every entry can be handled.
    pub open spec fn entries_wf(self) -> bool {
        forall|i: int| 0 <= i < self.entries.len() ==> #[trigger] self.entries[i].wf()
    }

    /// The bytes that the congestion window has room for.
    pub open spec fn free_space(self) -> nat {
        if self.window > self.size {
            (self.window - self.size) as nat
        } else {
            0
        }
    }

    /// Whether the transfer window has room for another sequence id.
    pub open spec fn can_send(self) -> bool {
        self.next_sequence_id.wrapping_sub(self.base_sequence_id) < TRANSFER_WINDOW_SIZE
    }

    /// Whether the frame with this sequence id is in flight.
    pub open spec fn in_flight(self, sequence_id: u32) -> bool {
        exists|i: int|
            0 <= i < self.entries.len() && #[trigger] self.entries[i].sequence_id == sequence_id
    }

    /// The place of the frame with this sequence id, if it is in flight.
    pub open spec fn position(self, sequence_id: u32) -> int {
        choose|i: int|
            0 <= i < self.entries.len() && #[trigger] self.entries[i].sequence_id == sequence_id
    }

    /// The queue with one more entry.
    pub open spec fn with_entry(self, entry: TransferEntryView) -> TransferQueueView {
        TransferQueueView {
            entries: self.entries.push(entry),
            size: self.size + entry.size(),
            ..self
        }
    }

    /// The queue after a frame with these datagrams was sent.
    pub open spec fn after_send(
        self,
        rel_dgs: Seq<DataEntry>,
        unrel_dgs: Seq<DataEntry>,
        now: Instant,
    ) -> TransferQueueView {
        TransferQueueView {
            next_sequence_id: self.next_sequence_id.wrapping_add(1),
            ..self.with_entry(entry_for(self.next_sequence_id, rel_dgs, unrel_dgs, now))
        }
    }

    /// The queue after the frame with this sequence id was acknowledged. The window of sequence
    /// ids then starts at the oldest frame that is still in flight.
    pub open spec fn after_ack(self, sequence_id: u32) -> TransferQueueView {
        if self.in_flight(sequence_id) {
            let i = self.position(sequence_id);
            let entries = self.entries.remove(i);
            TransferQueueView {
                window: window_after_ack(self.window),
                entries,
                size: (self.size - self.entries[i].size()) as nat,
                base_sequence_id: if entries.len() > 0 {
                    entries[0].sequence_id
                } else {
                    sequence_id.wrapping_add(1)
                },
                ..self
            }
        } else {
            self
        }
    }

    /// The queue after the frames that timed out were handled.
    pub open spec fn after_flush(self, now: Instant, timeout: Duration) -> TransferQueueView {
        let state = flush_entries(self.entries, self.window, now, timeout);
        TransferQueueView {
            window: state.window,
            entries: state.entries,
            size: total_size(state.entries),
            ..self
        }
    }

    /// The frames that are sent again for those that timed out.
    pub open spec fn resent(self, now: Instant, timeout: Duration) -> Seq<Seq<u8>> {
        flush_entries(self.entries, self.window, now, timeout).sent
    }
}

/// The contents of each entry.
pub open spec fn entry_views(entries: Seq<TransferEntry>) -> Seq<TransferEntryView> {
    Seq::new(entries.len(), |i: int| entries[i]@)
}

impl View for TransferQueue {
    type V = TransferQueueView;

    closed spec fn view(&self) -> TransferQueueView {
        TransferQueueView {
            window: self.congestion_window@,
            entries: entry_views(self.entries@),
            size: self.size as nat,
            next_sequence_id: self.next_sequence_id,
            base_sequence_id: self.base_sequence_id,
        }
    }
}

pub proof fn lemma_total_size_add(a: Seq<TransferEntryView>, b: Seq<TransferEntryView>)
    ensures
        total_size(a + b) == total_size(a) + total_size(b),
    decreases b.len(),
{
    if b.len() == 0 {
        assert(a + b =~= a);
    } else {
        assert((a + b).drop_last() =~= a + b.drop_last());
        lemma_total_size_add(a, b.drop_last());
    }
}

/// An entry counts toward the total, and the others count without it.
pub proof fn lemma_total_size_remove(entries: Seq<TransferEntryView>, i: int)
    requires
        0 <= i < entries.len(),
    ensures
        total_size(entries) == entries[i].size() + total_size(entries.remove(i)),
{
    let head = entries.take(i);
    let tail = entries.skip(i + 1);
    assert(entries =~= head.push(entries[i]) + tail);
    assert(head.push(entries[i]).drop_last() =~= head);
    assert(entries.remove(i) =~= head + tail);
    lemma_total_size_add(head.push(entries[i]), tail);
    lemma_total_size_add(head, tail);
}

/// What the frame with these datagrams counts in flight is its length.
pub proof fn lemma_entry_for_size(
    sequence_id: u32,
    rel_dgs: Seq<DataEntry>,
    unrel_dgs: Seq<DataEntry>,
    now: Instant,
)
    ensures
        entry_for(sequence_id, rel_dgs, unrel_dgs, now).size() == combined_frame(
            sequence_id,
            rel_dgs,
            unrel_dgs,
        ).len(),
        combined_frame(sequence_id, rel_dgs, unrel_dgs).len() == Data::HEADER_SIZE_BYTES
            + entries_size(rel_dgs) + entries_size(unrel_dgs),
        entry_for(sequence_id, rel_dgs, unrel_dgs, now).wf(),
{
    lemma_data_frame_len(rel_dgs.len() > 0, sequence_id, rel_dgs + unrel_dgs);
    lemma_data_frame_len(true, sequence_id, rel_dgs);
    lemma_entries_size_add(rel_dgs, unrel_dgs);
}

/// Sending a frame that fits both windows keeps the queue well formed.
pub proof fn lemma_after_send_wf(
    queue: TransferQueueView,
    rel_dgs: Seq<DataEntry>,
    unrel_dgs: Seq<DataEntry>,
    now: Instant,
)
    requires
        queue.wf(),
        queue.can_send(),
        queue.size + combined_frame(queue.next_sequence_id, rel_dgs, unrel_dgs).len()
            <= queue.window,
    ensures
        queue.after_send(rel_dgs, unrel_dgs, now).wf(),
        queue.entries_wf() ==> queue.after_send(rel_dgs, unrel_dgs, now).entries_wf(),
{
    let entry = entry_for(queue.next_sequence_id, rel_dgs, unrel_dgs, now);
    lemma_entry_for_size(queue.next_sequence_id, rel_dgs, unrel_dgs, now);
    assert(queue.entries.push(entry).drop_last() =~= queue.entries);
}

/// An acknowledgement keeps the queue well formed.
pub proof fn lemma_after_ack_wf(queue: TransferQueueView, sequence_id: u32)
    requires
        queue.wf(),
    ensures
        queue.after_ack(sequence_id).wf(),
        queue.entries_wf() ==> queue.after_ack(sequence_id).entries_wf(),
{
    if queue.in_flight(sequence_id) {
        let i = queue.position(sequence_id);
        let entries = queue.entries.remove(i);
        lemma_total_size_remove(queue.entries, i);
        assert forall|j: int| #![trigger entries[j]] 0 <= j < entries.len() implies entries[j]
            == queue.entries[if j < i { j } else { j + 1 }] by {}
        let after = queue.after_ack(sequence_id);
        if entries.len() > 0 {
            let first = queue.entries[if 0 < i { 0 } else { 1 }];
            assert(entries[0] == first);
            assert forall|j: int| #![trigger entries[j]] 0 <= j < entries.len() implies
                entries[j].sequence_id.wrapping_sub(after.base_sequence_id)
                < after.next_sequence_id.wrapping_sub(after.base_sequence_id)
                && entries[j].sequence_id.wrapping_sub(after.base_sequence_id)
                == entries[j].sequence_id.wrapping_sub(queue.base_sequence_id)
                - first.sequence_id.wrapping_sub(queue.base_sequence_id) by {
                let k = if j < i { j } else { j + 1 };
                assert(entries[j] == queue.entries[k]);
            }
            assert(after.next_sequence_id.wrapping_sub(after.base_sequence_id)
                <= TRANSFER_WINDOW_SIZE);
            assert(ids_ascend(entries, after.base_sequence_id));
        } else {
            assert(queue.entries[i].sequence_id == sequence_id);
        }
    }
}

/// What a timeout leaves in flight is well formed, keeps its sequence id and is no larger.
pub proof fn lemma_after_timeout(entry: TransferEntryView, now: Instant)
    requires
        entry.wf(),
    ensures
        entry.after_timeout(now) matches Some(left) ==> {
            &&& left.wf()
            &&& left.resend_frame is Some
            &&& left.sequence_id == entry.sequence_id
            &&& left.size() <= entry.size()
        },
{
    lemma_data_frame_len(true, entry.sequence_id, Seq::empty());
}

/// A flush keeps the window in bounds, and keeps the entries well formed and in order. It adds
/// no bytes.
pub proof fn lemma_flush_entries(
    entries: Seq<TransferEntryView>,
    window: nat,
    now: Instant,
    timeout: Duration,
    base: u32,
)
    requires
        window_in_bounds(window),
        forall|i: int| 0 <= i < entries.len() ==> #[trigger] entries[i].wf(),
        ids_ascend(entries, base),
    ensures
        ({
            let state = flush_entries(entries, window, now, timeout);
            &&& window_in_bounds(state.window)
            &&& state.window <= window
            &&& state.cumulative_size <= total_size(state.entries) <= total_size(entries)
            &&& forall|i: int| 0 <= i < state.entries.len() ==> #[trigger] state.entries[i].wf()
            &&& ids_ascend(state.entries, base)
            &&& forall|i: int|
                0 <= i < state.entries.len() ==> entries.len() > 0
                    && (#[trigger] state.entries[i]).sequence_id.wrapping_sub(base)
                    <= entries.last().sequence_id.wrapping_sub(base)
        }),
    decreases entries.len(),
{
    if entries.len() > 0 {
        let init = entries.drop_last();
        let entry = entries.last();
        let before = flush_entries(init, window, now, timeout);
        let after = flush_entries(entries, window, now, timeout);
        assert forall|i: int| 0 <= i < init.len() implies #[trigger] init[i].wf() by {
            assert(entries[i].wf());
        }
        assert forall|i: int, j: int|
            #![trigger init[i], init[j]]
            0 <= i < j < init.len() implies init[i].sequence_id.wrapping_sub(base)
            < init[j].sequence_id.wrapping_sub(base) by {
            assert(entries[i] == init[i] && entries[j] == init[j]);
        }
        lemma_flush_entries(init, window, now, timeout, base);
        assert(entries[entries.len() - 1].wf());
        lemma_after_timeout(entry, now);
        if init.len() > 0 {
            assert(entries[init.len() - 1] == init.last());
            assert(init.last().sequence_id.wrapping_sub(base) < entry.sequence_id.wrapping_sub(
                base,
            ));
        }
        if after.entries.len() > before.entries.len() {
            assert(after.entries.drop_last() =~= before.entries);
        }
    }
}

/// Handling timeouts keeps the queue well formed.
pub proof fn lemma_after_flush_wf(queue: TransferQueueView, now: Instant, timeout: Duration)
    requires
        queue.wf(),
        queue.entries_wf(),
    ensures
        queue.after_flush(now, timeout).wf(),
        queue.after_flush(now, timeout).entries_wf(),
{
    lemma_flush_entries(queue.entries, queue.window, now, timeout, queue.base_sequence_id);
}

/// What one step of a flush does to the byte counts.
proof fn lemma_flush_step(queue: TransferQueueView, done: int, now: Instant, timeout: Duration)
    requires
        queue.wf(),
        queue.entries_wf(),
        0 <= done < queue.entries.len(),
    ensures
        ({
            let all = queue.entries;
            let state = flush_entries(all.take(done), queue.window, now, timeout);
            let next = flush_entries(all.take(done + 1), queue.window, now, timeout);
            let entry = all[done];
            &&& entry.wf()
            &&& all.skip(done) == seq![entry] + all.skip(done + 1)
            &&& total_size(all.skip(done)) == entry.size() + total_size(all.skip(done + 1))
            &&& window_in_bounds(state.window)
            &&& state.cumulative_size <= total_size(state.entries)
            &&& next == state.step(entry, now, timeout)
            &&& next.entries.len() > state.entries.len() ==> total_size(next.entries)
                == total_size(state.entries) + next.entries.last().size()
            &&& entry.after_timeout(now) matches Some(left) ==> left.size() <= entry.size()
        }),
{
    let all = queue.entries;
    let base = queue.base_sequence_id;
    let prefix = all.take(done);
    let entry = all[done];
    let state = flush_entries(prefix, queue.window, now, timeout);
    let next = flush_entries(all.take(done + 1), queue.window, now, timeout);
    assert forall|i: int| 0 <= i < done implies #[trigger] prefix[i].wf() by {
        assert(all[i].wf());
    }
    assert forall|i: int, j: int|
        #![trigger prefix[i], prefix[j]]
        0 <= i < j < done implies prefix[i].sequence_id.wrapping_sub(base)
        < prefix[j].sequence_id.wrapping_sub(base) by {
        assert(all[i].wf() && all[j].wf());
    }
    lemma_flush_entries(prefix, queue.window, now, timeout, base);
    assert(all.take(done + 1).drop_last() =~= prefix);
    lemma_after_timeout(entry, now);
    assert(all.skip(done) =~= seq![entry] + all.skip(done + 1));
    lemma_total_size_add(seq![entry], all.skip(done + 1));
    assert(total_size(seq![entry]) == entry.size()) by {
        reveal_with_fuel(total_size, 2);
        assert(seq![entry].drop_last() =~= Seq::empty());
    }
    if next.entries.len() > state.entries.len() {
        assert(next.entries.drop_last() =~= state.entries);
    }
}

impl TransferQueue {
    pub open spec fn wf(self) -> bool {
        self@.wf()
    }

    pub fn new(tx_sequence_id: u32) -> (queue: Self)
        ensures
            queue.wf(),
            queue@.entries_wf(),
            queue@ == (TransferQueueView {
                window: CongestionWindow::MIN_SIZE as nat,
                entries: Seq::empty(),
                size: 0,
                next_sequence_id: tx_sequence_id,
                base_sequence_id: tx_sequence_id,
            }),
    {
        let queue = Self {
            congestion_window: CongestionWindow::new(),
            entries: VecDeque::new(),
            size: 0,
            next_sequence_id: tx_sequence_id,
            base_sequence_id: tx_sequence_id,
        };
        assert(queue@.entries =~= Seq::empty());
        queue
    }

    /// Adds a frame that was sent. It must lie in both windows.
    fn push_frame(&mut self, entry: TransferEntry)
        requires
            window_in_bounds(old(self)@.window),
            entry@.sequence_id.wrapping_sub(old(self)@.base_sequence_id) < TRANSFER_WINDOW_SIZE,
            old(self)@.size + entry@.size() <= old(self)@.window,
        ensures
            final(self)@ == old(self)@.with_entry(entry@),
    {
        self.size = self.size + entry.size();
        self.entries.push_back(entry);
        assert(self@.entries =~= old(self)@.entries.push(entry@));
    }

    /// Sends the datagrams in one frame and keeps it in flight. Without datagrams it does nothing.
    pub fn send_frame(
        &mut self,
        rel_dgs: Vec<DataEntry>,
        unrel_dgs: Vec<DataEntry>,
        now: Instant,
        sink: &mut Outbox,
    )
        requires
            old(self).wf(),
            rel_dgs@.len() > 0 || unrel_dgs@.len() > 0 ==> {
                &&& old(self)@.can_send()
                &&& old(self)@.size + combined_frame(
                    old(self)@.next_sequence_id,
                    rel_dgs@,
                    unrel_dgs@,
                ).len() <= old(self)@.window
            },
        ensures
            final(self).wf(),
            old(self)@.entries_wf() ==> final(self)@.entries_wf(),
            rel_dgs@.len() > 0 || unrel_dgs@.len() > 0 ==> {
                &&& final(self)@ == old(self)@.after_send(rel_dgs@, unrel_dgs@, now)
                &&& final(sink)@ == old(sink)@.push(
                    combined_frame(old(self)@.next_sequence_id, rel_dgs@, unrel_dgs@),
                )
            },
            rel_dgs@.len() == 0 && unrel_dgs@.len() == 0 ==> {
                &&& final(self)@ == old(self)@
                &&& final(sink)@ == old(sink)@
            },
    {
        if rel_dgs.len() > 0 || unrel_dgs.len() > 0 {
            let sequence_id: u32 = self.next_sequence_id;
            self.next_sequence_id = self.next_sequence_id.wrapping_add(1);
            let ghost rel = rel_dgs@;
            let ghost unrel = unrel_dgs@;
            proof {
                lemma_after_send_wf(old(self)@, rel, unrel, now);
                lemma_entry_for_size(sequence_id, rel, unrel, now);
            }

            if rel_dgs.len() == 0 {
                // Nothing is sent again; a loss takes the whole frame out of flight.
                assert(rel + unrel =~= unrel);
                let frame_data = Data::new(false, sequence_id, unrel_dgs).to_bytes();
                sink.send(frame_data.as_slice());
                self.push_frame(TransferEntry::new_unreliable(frame_data.len(), sequence_id, now));
            } else if unrel_dgs.len() == 0 {
                // The frame is sent again as it is; a loss takes nothing out of flight.
                assert(rel + unrel =~= rel);
                let resend_frame_data = Data::new(true, sequence_id, rel_dgs).to_bytes();
                sink.send(resend_frame_data.as_slice());
                self.push_frame(
                    TransferEntry::new_reliable(resend_frame_data, 0, sequence_id, now),
                );
            } else {
                // The reliable datagrams alone are sent again; a loss takes the others out of
                // flight.
                let resend_frame = Data::new(true, sequence_id, rel_dgs);
                let resend_frame_data = resend_frame.to_bytes();
                let resend_size: usize = resend_frame_data.len();

                let mut all_dgs = resend_frame.entries;
                let mut unrel_dgs = unrel_dgs;
                all_dgs.append(&mut unrel_dgs);

                let frame_data = Data::new(true, sequence_id, all_dgs).to_bytes();
                sink.send(frame_data.as_slice());
                proof {
                    lemma_data_frame_len(true, sequence_id, rel);
                    lemma_data_frame_len(true, sequence_id, rel + unrel);
                    lemma_entries_size_add(rel, unrel);
                }
                self.push_frame(
                    TransferEntry::new_reliable(
                        resend_frame_data,
                        frame_data.len() - resend_size,
                        sequence_id,
                        now,
                    ),
                );
            }
        }
    }

    /// Takes the frame with this sequence id out of flight, if it is there.
    pub fn acknowledge_frame(&mut self, sequence_id: u32)
        requires
            old(self).wf(),
        ensures
            final(self).wf(),
            old(self)@.entries_wf() ==> final(self)@.entries_wf(),
            final(self)@ == old(self)@.after_ack(sequence_id),
    {
        proof {
            lemma_after_ack_wf(self@, sequence_id);
        }
        if sequence_id.wrapping_sub(self.base_sequence_id) >= TRANSFER_WINDOW_SIZE {
            return;
        }
        let mut i: usize = 0;
        while i < self.entries.len()
            invariant
                *self == *old(self),
                self.wf(),
                self@.after_ack(sequence_id).wf(),
                self@.entries_wf() ==> self@.after_ack(sequence_id).entries_wf(),
                i <= self.entries@.len(),
                forall|j: int| 0 <= j < i ==> #[trigger] self@.entries[j].sequence_id
                    != sequence_id,
            decreases self.entries@.len() - i,
        {
            if self.entries[i].sequence_id() == sequence_id {
                proof {
                    assert(self@.entries[i as int].sequence_id == sequence_id);
                    assert(self@.in_flight(sequence_id));
                    assert(self@.position(sequence_id) == i);
                    lemma_total_size_remove(self@.entries, i as int);
                }
                self.size = self.size - self.entries[i].size();
                self.entries.remove(i);
                self.congestion_window.signal_ack();
                assert(self@.entries =~= old(self)@.entries.remove(i as int));

                if self.entries.len() > 0 {
                    assert(self@.entries[0] == self.entries@[0]@);
                    self.base_sequence_id = self.entries[0].sequence_id();
                } else {
                    self.base_sequence_id = sequence_id.wrapping_add(1);
                }
                return;
            }
            i += 1;
        }
        assert(!self@.in_flight(sequence_id));
    }

    /// Handles the frames that timed out: gives up their unreliable datagrams and sends the rest
    /// again, as far as the congestion window reaches.
    pub fn flush(&mut self, now: Instant, timeout: Duration, sink: &mut Outbox)
        requires
            old(self).wf(),
            old(self)@.entries_wf(),
        ensures
            final(self).wf(),
            final(self)@.entries_wf(),
            final(self)@ == old(self)@.after_flush(now, timeout),
            final(sink)@ == old(sink)@ + old(self)@.resent(now, timeout),
    {
        let ghost all = self@.entries;
        let ghost window = self@.window;
        let ghost sent_before = sink@;
        let mut cumulative_size: usize = 0;
        let mut left: usize = self.entries.len();
        proof {
            lemma_after_flush_wf(self@, now, timeout);
            assert(all.take(0) =~= Seq::empty());
            assert(all.skip(0) =~= all);
            assert(all.skip(0) + Seq::<TransferEntryView>::empty() =~= all);
            assert(sink@ + Seq::<Seq<u8>>::empty() =~= sink@);
        }
        while left > 0
            invariant
                left <= all.len(),
                all == old(self)@.entries,
                window == old(self)@.window,
                old(self).wf(),
                old(self)@.entries_wf(),
                self@.base_sequence_id == old(self)@.base_sequence_id,
                self@.next_sequence_id == old(self)@.next_sequence_id,
                ({
                    let done = all.len() - left;
                    let state = flush_entries(all.take(done), window, now, timeout);
                    &&& self@.window == state.window
                    &&& cumulative_size == state.cumulative_size
                    &&& self@.entries == all.skip(done) + state.entries
                    &&& self@.size == total_size(all.skip(done)) + total_size(state.entries)
                    &&& sink@ == sent_before + state.sent
                }),
                self@.size <= CongestionWindow::MAX_SIZE,
            decreases left,
        {
            let ghost done: int = all.len() - left;
            let ghost state = flush_entries(all.take(done), window, now, timeout);
            let ghost rest = all.skip(done + 1);
            let ghost pending = all[done];
            let ghost queued = self@.entries;
            proof {
                lemma_flush_step(old(self)@, done, now, timeout);
                assert(queued[0] == pending);
                assert(self.entries@.len() == queued.len());
                assert(self.entries@[0]@ == pending);
            }
            if let Some(entry) = self.entries.pop_front() {
                let mut entry = entry;
                assert(self@.entries =~= queued.skip(1));
                assert(queued.skip(1) =~= rest + state.entries);
                let size: usize = entry.size();
                let mut in_flight = true;
                if cumulative_size + size <= self.congestion_window.size() {
                    if entry.should_resend(now, timeout) {
                        self.congestion_window.signal_nack();
                        self.size = self.size - size;
                        in_flight = entry.time_out(now, sink);
                        if in_flight {
                            self.size = self.size + entry.size();
                        }
                    }
                    if in_flight {
                        cumulative_size = cumulative_size + entry.size();
                    }
                }
                if in_flight {
                    let ghost popped = self@.entries;
                    self.entries.push_back(entry);
                    assert(self@.entries =~= popped.push(entry@));
                    assert(popped.push(entry@) =~= rest + state.entries.push(entry@));
                }
                assert(sink@ =~= sent_before + state.step(pending, now, timeout).sent);
            }
            left -= 1;
        }
        assert(all.take(all.len() as int) =~= all);
        assert(all.skip(all.len() as int) =~= Seq::empty());
        let ghost flushed = flush_entries(all, window, now, timeout).entries;
        assert(Seq::<TransferEntryView>::empty() + flushed =~= flushed);
    }

    pub fn is_empty(&self) -> (empty: bool)
        ensures
            empty == (self@.entries.len() == 0),
    {
        self.entries.len() == 0
    }

    pub fn free_space(&self) -> (space: usize)
        ensures
            space == self@.free_space(),
            self@.size <= self@.window ==> self@.size + space == self@.window,
            self@.size >= self@.window ==> space == 0,
    {
        if self.congestion_window.size() > self.size {
            self.congestion_window.size() - self.size
        } else {
            0
        }
    }

    pub fn can_send(&self) -> (can: bool)
        ensures
            can == self@.can_send(),
            can == (self@.next_sequence_id.wrapping_sub(self@.base_sequence_id) < 128),
    {
        self.next_sequence_id.wrapping_sub(self.base_sequence_id) < TRANSFER_WINDOW_SIZE
    }
}

} // verus!
