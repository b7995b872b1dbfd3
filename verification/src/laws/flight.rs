//! Laws of the frames in flight: timeouts, acknowledgements and the windows.
use crate::congestion_window::{window_after_ack, window_after_nack, window_in_bounds};
use crate::frame::{data_frame, entries_size, lemma_data_frame_len, Data, DataEntry};
use crate::frame_io::after_acks;
use crate::time::{Duration, Instant};
use crate::transfer_entry::{
    is_sentinel_id, sentinel_frame, TransferEntryView, SENTINEL_FRAME_SPACING,
};
use crate::transfer_queue::{
    entry_for, flush_entries, ids_ascend, lemma_after_ack_wf, lemma_after_timeout,
    lemma_entry_for_size, lemma_flush_entries, lemma_total_size_remove, TransferQueueView,
};
use crate::MTU;
use vstd::prelude::*;

verus! {

/// The congestion window stays between its smallest and its largest size. It never shrinks on an
/// acknowledgement and never grows on a loss.
pub proof fn congestion_window_stays_in_bounds(size: nat)
    requires
        window_in_bounds(size),
    ensures
        window_in_bounds(window_after_ack(size)),
        window_in_bounds(window_after_nack(size)),
        window_after_ack(size) >= size,
        window_after_nack(size) <= size,
{
}

/// What the loss of a frame gives up: its unreliable datagrams, and no byte more. The reliable
/// ones stay in flight in a frame of their own. Without any, the whole frame is given up, or an
/// empty frame stays in its place.
pub proof fn loss_gives_up_unreliable_datagrams(
    sequence_id: u32,
    rel_dgs: Seq<DataEntry>,
    unrel_dgs: Seq<DataEntry>,
    sent: Instant,
    now: Instant,
)
    ensures
        ({
            let entry = entry_for(sequence_id, rel_dgs, unrel_dgs, sent);
            let left = entry.after_timeout(now);
            &&& entry.size() == Data::HEADER_SIZE_BYTES + entries_size(rel_dgs) + entries_size(
                unrel_dgs,
            )
            &&& rel_dgs.len() > 0 ==> {
                &&& left is Some
                &&& left->0.resend_frame == Some(data_frame(true, sequence_id, rel_dgs))
                &&& left->0.size() == entry.size() - entries_size(unrel_dgs)
            }
            &&& rel_dgs.len() == 0 && is_sentinel_id(sequence_id) ==> {
                &&& left is Some
                &&& left->0.resend_frame == Some(sentinel_frame(sequence_id))
                &&& left->0.size() == entry.size() - entries_size(unrel_dgs)
            }
            &&& rel_dgs.len() == 0 && !is_sentinel_id(sequence_id) ==> left is None
        }),
{
    lemma_entry_for_size(sequence_id, rel_dgs, unrel_dgs, sent);
    lemma_data_frame_len(true, sequence_id, rel_dgs);
    lemma_data_frame_len(true, sequence_id, Seq::empty());
}

/// The frame with this sequence id and these bytes to send again is among `entries`.
pub open spec fn awaits(
    entries: Seq<TransferEntryView>,
    sequence_id: u32,
    resend_frame: Option<Seq<u8>>,
) -> bool {
    exists|i: int|
        0 <= i < entries.len() && (#[trigger] entries[i]).sequence_id == sequence_id
            && entries[i].resend_frame == resend_frame
}

proof fn lemma_flush_entries_keep_resend(
    entries: Seq<TransferEntryView>,
    window: nat,
    now: Instant,
    timeout: Duration,
    i: int,
)
    requires
        0 <= i < entries.len(),
        entries[i].resend_frame is Some,
    ensures
        awaits(
            flush_entries(entries, window, now, timeout).entries,
            entries[i].sequence_id,
            entries[i].resend_frame,
        ),
    decreases entries.len(),
{
    let init = entries.drop_last();
    let before = flush_entries(init, window, now, timeout).entries;
    let after = flush_entries(entries, window, now, timeout).entries;
    if i == entries.len() - 1 {
        let k = before.len() as int;
        assert(after.len() == k + 1);
        assert(after[k].sequence_id == entries[i].sequence_id);
        assert(after[k].resend_frame == entries[i].resend_frame);
    } else {
        lemma_flush_entries_keep_resend(init, window, now, timeout, i);
        let k = choose|k: int|
            0 <= k < before.len() && (#[trigger] before[k]).sequence_id == entries[i].sequence_id
                && before[k].resend_frame == entries[i].resend_frame;
        assert(after[k] == before[k]);
    }
}

/// A frame that is to be sent again stays in flight through a flush, with the same bytes.
pub proof fn flush_keeps_reliable_frame(
    queue: TransferQueueView,
    now: Instant,
    timeout: Duration,
    i: int,
)
    requires
        0 <= i < queue.entries.len(),
        queue.entries[i].resend_frame is Some,
    ensures
        awaits(
            queue.after_flush(now, timeout).entries,
            queue.entries[i].sequence_id,
            queue.entries[i].resend_frame,
        ),
{
    lemma_flush_entries_keep_resend(queue.entries, queue.window, now, timeout, i);
}

/// An acknowledgement takes the frame with its sequence id out of flight, and no other. The
/// other frames stay as they are.
pub proof fn acknowledgement_takes_one_frame(queue: TransferQueueView, sequence_id: u32)
    requires
        queue.wf(),
    ensures
        !queue.after_ack(sequence_id).in_flight(sequence_id),
        forall|other: u32|
            other != sequence_id ==> (#[trigger] queue.after_ack(sequence_id).in_flight(other)
                == queue.in_flight(other)),
        forall|i: int|
            0 <= i < queue.entries.len() && (#[trigger] queue.entries[i]).sequence_id
                != sequence_id ==> queue.after_ack(sequence_id).entries.contains(
                queue.entries[i],
            ),
{
    let after = queue.after_ack(sequence_id);
    if queue.in_flight(sequence_id) {
        let p = queue.position(sequence_id);
        assert forall|i: int|
            0 <= i < queue.entries.len() && (#[trigger] queue.entries[i]).sequence_id
                != sequence_id implies after.entries.contains(queue.entries[i]) by {
            let k = if i < p { i } else { i - 1 };
            assert(after.entries[k] == queue.entries[i]);
        }
        assert forall|k: int| #![trigger after.entries[k]] 0 <= k < after.entries.len() implies
            after.entries[k].sequence_id != sequence_id && after.entries[k]
            == queue.entries[if k < p { k } else { k + 1 }] by {
            let i = if k < p { k } else { k + 1 };
            assert(after.entries[k] == queue.entries[i]);
            assert(queue.entries[p].sequence_id == sequence_id);
        }
        assert forall|other: u32| other != sequence_id implies (#[trigger] after.in_flight(other)
            == queue.in_flight(other)) by {
            if queue.in_flight(other) {
                let i = queue.position(other);
                assert(after.entries.contains(queue.entries[i]));
                let k = choose|k: int|
                    0 <= k < after.entries.len() && after.entries[k] == queue.entries[i];
                assert(after.entries[k].sequence_id == other);
            }
            if after.in_flight(other) {
                let k = after.position(other);
                assert(after.entries[k].sequence_id == other);
            }
        }
    }
}

/// Of the frames in flight, a series of acknowledgements takes out those that it names.
pub proof fn acknowledged_frames_leave(queue: TransferQueueView, ids: Seq<u32>)
    requires
        queue.wf(),
    ensures
        after_acks(queue, ids).wf(),
        forall|id: u32| #[trigger]
            after_acks(queue, ids).in_flight(id) <==> queue.in_flight(id) && !ids.contains(id),
    decreases ids.len(),
{
    if ids.len() > 0 {
        let init = ids.drop_last();
        acknowledged_frames_leave(queue, init);
        let before = after_acks(queue, init);
        lemma_after_ack_wf(before, ids.last());
        acknowledgement_takes_one_frame(before, ids.last());
        assert forall|id: u32| #[trigger] after_acks(queue, ids).in_flight(id) <==>
            queue.in_flight(id) && !ids.contains(id) by {
            assert(ids.contains(id) <==> init.contains(id) || id == ids.last()) by {
                if ids.contains(id) {
                    let k = choose|k: int| 0 <= k < ids.len() && ids[k] == id;
                    if k < init.len() {
                        assert(init[k] == id);
                    }
                }
                if init.contains(id) {
                    let k = choose|k: int| 0 <= k < init.len() && init[k] == id;
                    assert(ids[k] == id);
                }
                assert(ids[ids.len() - 1] == ids.last());
            }
        }
    }
}

/// An acknowledgement that comes again changes nothing.
pub proof fn repeated_acknowledgement_changes_nothing(queue: TransferQueueView, sequence_id: u32)
    requires
        queue.wf(),
    ensures
        queue.after_ack(sequence_id).after_ack(sequence_id) == queue.after_ack(sequence_id),
{
    acknowledgement_takes_one_frame(queue, sequence_id);
}

/// An acknowledgement of a sequence id outside the transfer window changes nothing.
pub proof fn stray_acknowledgement_changes_nothing(queue: TransferQueueView, sequence_id: u32)
    requires
        queue.wf(),
        sequence_id.wrapping_sub(queue.base_sequence_id) >= queue.next_sequence_id.wrapping_sub(
            queue.base_sequence_id,
        ),
    ensures
        queue.after_ack(sequence_id) == queue,
{
    if queue.in_flight(sequence_id) {
        assert(queue.entries[queue.position(sequence_id)].sequence_id == sequence_id);
    }
}

/// An acknowledgement never takes room away: the congestion window has at least as much free
/// space as before, with the frame that left on top, and the transfer window at least as many
/// ids.
pub proof fn acknowledgement_makes_room(queue: TransferQueueView, sequence_id: u32)
    requires
        queue.wf(),
    ensures
        ({
            let after = queue.after_ack(sequence_id);
            &&& after.window >= queue.window
            &&& after.free_space() >= queue.free_space()
            &&& queue.in_flight(sequence_id) ==> queue.size == after.size
                + queue.entries[queue.position(sequence_id)].size()
            &&& after.next_sequence_id.wrapping_sub(after.base_sequence_id)
                <= queue.next_sequence_id.wrapping_sub(queue.base_sequence_id)
            &&& queue.can_send() ==> after.can_send()
        }),
{
    if queue.in_flight(sequence_id) {
        let p = queue.position(sequence_id);
        let after = queue.after_ack(sequence_id);
        lemma_total_size_remove(queue.entries, p);
        assert(queue.entries[p].sequence_id == sequence_id);
        if after.entries.len() > 0 {
            assert(after.entries[0] == queue.entries[if 0 < p { 0 } else { 1 }]);
        }
    }
}

/// A frame that no acknowledgement names stays in flight as it is.
pub proof fn acknowledgements_keep_other_frames(
    queue: TransferQueueView,
    ids: Seq<u32>,
    entry: TransferEntryView,
)
    requires
        queue.wf(),
        queue.entries.contains(entry),
        !ids.contains(entry.sequence_id),
    ensures
        after_acks(queue, ids).entries.contains(entry),
    decreases ids.len(),
{
    if ids.len() > 0 {
        let init = ids.drop_last();
        assert forall|k: int| 0 <= k < init.len() implies init[k] != entry.sequence_id by {
            assert(ids[k] == init[k]);
        }
        acknowledgements_keep_other_frames(queue, init, entry);
        acknowledged_frames_leave(queue, init);
        let before = after_acks(queue, init);
        acknowledgement_takes_one_frame(before, ids.last());
        let i = choose|i: int| 0 <= i < before.entries.len() && before.entries[i] == entry;
        assert(ids[ids.len() - 1] == ids.last());
        assert(before.entries[i].sequence_id != ids.last());
    }
}

/// A frame that is to be sent again stays in flight, with the same bytes, until an
/// acknowledgement names it.
pub proof fn acknowledgements_keep_reliable_frame(
    queue: TransferQueueView,
    ids: Seq<u32>,
    sequence_id: u32,
    resend_frame: Option<Seq<u8>>,
)
    requires
        queue.wf(),
        awaits(queue.entries, sequence_id, resend_frame),
        !ids.contains(sequence_id),
    ensures
        awaits(after_acks(queue, ids).entries, sequence_id, resend_frame),
{
    let i = choose|i: int|
        0 <= i < queue.entries.len() && (#[trigger] queue.entries[i]).sequence_id == sequence_id
            && queue.entries[i].resend_frame == resend_frame;
    let entry = queue.entries[i];
    acknowledgements_keep_other_frames(queue, ids, entry);
    let after = after_acks(queue, ids).entries;
    let k = choose|k: int| 0 <= k < after.len() && after[k] == entry;
    assert(after[k].sequence_id == sequence_id);
}

/// No frame in flight exceeds the frame size limit.
pub open spec fn frames_within_limit(queue: TransferQueueView) -> bool {
    forall|i: int| 0 <= i < queue.entries.len() ==> #[trigger] queue.entries[i].size() <= MTU
}

/// Acknowledgements keep the frames in flight within the frame size limit.
pub proof fn acknowledgements_keep_frames_within_limit(queue: TransferQueueView, ids: Seq<u32>)
    requires
        frames_within_limit(queue),
    ensures
        frames_within_limit(after_acks(queue, ids)),
    decreases ids.len(),
{
    if ids.len() > 0 {
        acknowledgements_keep_frames_within_limit(queue, ids.drop_last());
        let before = after_acks(queue, ids.drop_last());
        if before.in_flight(ids.last()) {
            let p = before.position(ids.last());
            let entries = before.entries.remove(p);
            assert forall|k: int| 0 <= k < entries.len() implies #[trigger] entries[k].size()
                <= MTU by {
                let i = if k < p { k } else { k + 1 };
                assert(entries[k] == before.entries[i]);
                assert(before.entries[i].size() <= MTU);
            }
        }
    }
}

proof fn lemma_flush_entries_within_limit(
    entries: Seq<TransferEntryView>,
    window: nat,
    now: Instant,
    timeout: Duration,
    k: int,
)
    requires
        forall|i: int|
            0 <= i < entries.len() ==> #[trigger] entries[i].wf() && entries[i].size() <= MTU,
        0 <= k < flush_entries(entries, window, now, timeout).entries.len(),
    ensures
        flush_entries(entries, window, now, timeout).entries[k].size() <= MTU,
    decreases entries.len(),
{
    let init = entries.drop_last();
    assert forall|i: int| 0 <= i < init.len() implies #[trigger] init[i].wf() && init[i].size()
        <= MTU by {
        assert(entries[i].wf());
    }
    if k < flush_entries(init, window, now, timeout).entries.len() {
        lemma_flush_entries_within_limit(init, window, now, timeout, k);
    } else {
        assert(entries[entries.len() - 1].wf());
        lemma_after_timeout(entries.last(), now);
    }
}

/// Handling timeouts keeps the frames in flight within the frame size limit.
pub proof fn flush_keeps_frames_within_limit(
    queue: TransferQueueView,
    now: Instant,
    timeout: Duration,
)
    requires
        queue.entries_wf(),
        frames_within_limit(queue),
    ensures
        frames_within_limit(queue.after_flush(now, timeout)),
{
    assert forall|i: int| 0 <= i < queue.entries.len() implies #[trigger] queue.entries[i].wf()
        && queue.entries[i].size() <= MTU by {}
    let after = queue.after_flush(now, timeout).entries;
    assert forall|k: int| 0 <= k < after.len() implies #[trigger] after[k].size() <= MTU by {
        lemma_flush_entries_within_limit(queue.entries, queue.window, now, timeout, k);
    }
}

proof fn lemma_flush_entries_keep(
    entries: Seq<TransferEntryView>,
    window: nat,
    now: Instant,
    timeout: Duration,
    i: int,
)
    requires
        0 <= i < entries.len(),
        !entries[i].timed_out(now, timeout),
    ensures
        flush_entries(entries, window, now, timeout).entries.contains(entries[i]),
    decreases entries.len(),
{
    let init = entries.drop_last();
    let before = flush_entries(init, window, now, timeout).entries;
    let after = flush_entries(entries, window, now, timeout).entries;
    if i == entries.len() - 1 {
        assert(after[before.len() as int] == entries[i]);
    } else {
        lemma_flush_entries_keep(init, window, now, timeout, i);
        let k = choose|k: int| 0 <= k < before.len() && before[k] == init[i];
        assert(after[k] == entries[i]);
    }
}

/// A flush leaves a frame that has not timed out as it is.
pub proof fn flush_keeps_fresh_frame(
    queue: TransferQueueView,
    now: Instant,
    timeout: Duration,
    i: int,
)
    requires
        0 <= i < queue.entries.len(),
        !queue.entries[i].timed_out(now, timeout),
    ensures
        queue.after_flush(now, timeout).entries.contains(queue.entries[i]),
{
    lemma_flush_entries_keep(queue.entries, queue.window, now, timeout, i);
}

proof fn lemma_flush_entries_fresh(
    entries: Seq<TransferEntryView>,
    window: nat,
    now: Instant,
    timeout: Duration,
)
    requires
        forall|i: int|
            0 <= i < entries.len() ==> !(#[trigger] entries[i]).timed_out(now, timeout),
    ensures
        flush_entries(entries, window, now, timeout).entries == entries,
        flush_entries(entries, window, now, timeout).window == window,
        flush_entries(entries, window, now, timeout).sent.len() == 0,
    decreases entries.len(),
{
    if entries.len() > 0 {
        let init = entries.drop_last();
        assert forall|i: int| 0 <= i < init.len() implies !(#[trigger] init[i]).timed_out(
            now,
            timeout,
        ) by {
            assert(!entries[i].timed_out(now, timeout));
        }
        lemma_flush_entries_fresh(init, window, now, timeout);
        assert(!entries[entries.len() - 1].timed_out(now, timeout));
        assert(init.push(entries.last()) =~= entries);
    }
}

/// Without a timeout a flush changes nothing and sends nothing.
pub proof fn flush_without_timeout_changes_nothing(
    queue: TransferQueueView,
    now: Instant,
    timeout: Duration,
)
    requires
        queue.wf(),
        forall|i: int|
            0 <= i < queue.entries.len() ==> !(#[trigger] queue.entries[i]).timed_out(
                now,
                timeout,
            ),
    ensures
        queue.after_flush(now, timeout) == queue,
        queue.resent(now, timeout).len() == 0,
{
    lemma_flush_entries_fresh(queue.entries, queue.window, now, timeout);
}

proof fn lemma_flush_entries_ids(
    entries: Seq<TransferEntryView>,
    window: nat,
    now: Instant,
    timeout: Duration,
    k: int,
)
    requires
        0 <= k < flush_entries(entries, window, now, timeout).entries.len(),
    ensures
        exists|i: int|
            0 <= i < entries.len() && (#[trigger] entries[i]).sequence_id == flush_entries(
                entries,
                window,
                now,
                timeout,
            ).entries[k].sequence_id,
    decreases entries.len(),
{
    let init = entries.drop_last();
    let before = flush_entries(init, window, now, timeout).entries;
    let after = flush_entries(entries, window, now, timeout).entries;
    if k < before.len() {
        assert(after[k] == before[k]);
        lemma_flush_entries_ids(init, window, now, timeout, k);
        let i = choose|i: int|
            0 <= i < init.len() && (#[trigger] init[i]).sequence_id == before[k].sequence_id;
        assert(entries[i] == init[i]);
    } else {
        assert(entries[entries.len() - 1].sequence_id == after[k].sequence_id);
    }
}

/// A flush adds nothing: neither bytes nor sequence ids come into flight, and the congestion
/// window does not grow.
pub proof fn flush_adds_nothing(queue: TransferQueueView, now: Instant, timeout: Duration)
    requires
        queue.wf(),
        queue.entries_wf(),
    ensures
        ({
            let after = queue.after_flush(now, timeout);
            &&& after.size <= queue.size
            &&& after.window <= queue.window
            &&& after.entries.len() <= queue.entries.len()
            &&& forall|id: u32| #[trigger] after.in_flight(id) ==> queue.in_flight(id)
        }),
{
    let after = queue.after_flush(now, timeout);
    lemma_flush_entries(queue.entries, queue.window, now, timeout, queue.base_sequence_id);
    lemma_flush_entries_len(queue.entries, queue.window, now, timeout);
    assert forall|id: u32| #[trigger] after.in_flight(id) implies queue.in_flight(id) by {
        let k = after.position(id);
        assert(after.entries[k].sequence_id == id);
        lemma_flush_entries_ids(queue.entries, queue.window, now, timeout, k);
    }
}

proof fn lemma_flush_entries_len(
    entries: Seq<TransferEntryView>,
    window: nat,
    now: Instant,
    timeout: Duration,
)
    ensures
        flush_entries(entries, window, now, timeout).entries.len() <= entries.len(),
    decreases entries.len(),
{
    if entries.len() > 0 {
        lemma_flush_entries_len(entries.drop_last(), window, now, timeout);
    }
}

/// Whether a frame with these bytes to send again is among `entries`.
pub open spec fn has_resend_frame(entries: Seq<TransferEntryView>, frame: Seq<u8>) -> bool {
    exists|i: int| 0 <= i < entries.len() && (#[trigger] entries[i]).resend_frame == Some(frame)
}

proof fn lemma_flush_entries_sent(
    entries: Seq<TransferEntryView>,
    window: nat,
    now: Instant,
    timeout: Duration,
    k: int,
)
    requires
        0 <= k < flush_entries(entries, window, now, timeout).sent.len(),
    ensures
        has_resend_frame(
            flush_entries(entries, window, now, timeout).entries,
            flush_entries(entries, window, now, timeout).sent[k],
        ),
    decreases entries.len(),
{
    let init = entries.drop_last();
    let before = flush_entries(init, window, now, timeout);
    let after = flush_entries(entries, window, now, timeout);
    if k < before.sent.len() {
        lemma_flush_entries_sent(init, window, now, timeout, k);
        let i = choose|i: int|
            0 <= i < before.entries.len() && (#[trigger] before.entries[i]).resend_frame == Some(
                before.sent[k],
            );
        assert(after.entries[i] == before.entries[i]);
        assert(after.sent[k] == before.sent[k]);
    } else {
        assert(after.entries[before.entries.len() as int].resend_frame == Some(after.sent[k]));
    }
}

/// Every frame that a flush sends again is one that stays in flight, byte for byte.
pub proof fn resent_frame_is_in_flight(
    queue: TransferQueueView,
    now: Instant,
    timeout: Duration,
    k: int,
)
    requires
        0 <= k < queue.resent(now, timeout).len(),
    ensures
        has_resend_frame(
            queue.after_flush(now, timeout).entries,
            queue.resent(now, timeout)[k],
        ),
{
    lemma_flush_entries_sent(queue.entries, queue.window, now, timeout, k);
}

proof fn lemma_flush_entries_first(
    entries: Seq<TransferEntryView>,
    window: nat,
    now: Instant,
    timeout: Duration,
    base: u32,
)
    requires
        entries.len() > 0,
        entries[0].size() <= window,
        entries[0].timed_out(now, timeout),
        ids_ascend(entries, base),
    ensures
        ({
            let state = flush_entries(entries, window, now, timeout);
            match entries[0].after_timeout(now) {
                Some(left) => {
                    &&& state.entries.len() > 0
                    &&& state.entries[0] == left
                    &&& state.sent.len() > 0
                    &&& state.sent[0] == left.resend_frame->0
                },
                None => forall|k: int|
                    0 <= k < state.entries.len() ==> (#[trigger] state.entries[k]).sequence_id
                        != entries[0].sequence_id,
            }
        }),
    decreases entries.len(),
{
    let init = entries.drop_last();
    if init.len() > 0 {
        assert forall|i: int, j: int|
            #![trigger init[i], init[j]]
            0 <= i < j < init.len() implies init[i].sequence_id.wrapping_sub(base)
            < init[j].sequence_id.wrapping_sub(base) by {
            assert(entries[i] == init[i] && entries[j] == init[j]);
        }
        lemma_flush_entries_first(init, window, now, timeout, base);
        assert(entries[0].sequence_id.wrapping_sub(base) < entries[entries.len()
            - 1].sequence_id.wrapping_sub(base));
        let before = flush_entries(init, window, now, timeout);
        let after = flush_entries(entries, window, now, timeout);
        assert forall|k: int| 0 <= k < before.entries.len() implies after.entries[k]
            == #[trigger] before.entries[k] by {}
        assert forall|k: int| 0 <= k < before.sent.len() implies after.sent[k]
            == #[trigger] before.sent[k] by {}
        assert forall|k: int| before.entries.len() <= k < after.entries.len() implies (
        #[trigger] after.entries[k]).sequence_id == entries.last().sequence_id by {}
        if entries[0].after_timeout(now) is None {
            assert forall|k: int| 0 <= k < after.entries.len() implies (
            #[trigger] after.entries[k]).sequence_id != entries[0].sequence_id by {
                if k < before.entries.len() {
                    assert(after.entries[k] == before.entries[k]);
                }
            }
        }
    } else {
        assert(flush_entries(init, window, now, timeout).entries =~= Seq::empty());
        assert(entries.last() == entries[0]);
    }
}

/// A flush always gets to the oldest frame: once it has timed out it is sent again, or it is
/// given up and out of flight.
pub proof fn flush_handles_oldest_frame(queue: TransferQueueView, now: Instant, timeout: Duration)
    requires
        queue.wf(),
        queue.entries.len() > 0,
        queue.entries[0].size() <= MTU,
        queue.entries[0].timed_out(now, timeout),
    ensures
        ({
            let after = queue.after_flush(now, timeout);
            let resent = queue.resent(now, timeout);
            match queue.entries[0].after_timeout(now) {
                Some(left) => {
                    &&& after.entries.len() > 0
                    &&& after.entries[0] == left
                    &&& resent.len() > 0
                    &&& resent[0] == left.resend_frame->0
                },
                None => !after.in_flight(queue.entries[0].sequence_id),
            }
        }),
{
    lemma_flush_entries_first(queue.entries, queue.window, now, timeout, queue.base_sequence_id);
}

/// Every sentinel id of the transfer window is in flight.
pub open spec fn sentinels_in_flight(queue: TransferQueueView) -> bool {
    forall|id: u32|
        is_sentinel_id(id) && id.wrapping_sub(queue.base_sequence_id)
            < queue.next_sequence_id.wrapping_sub(queue.base_sequence_id)
            ==> #[trigger] queue.in_flight(id)
}

/// As long as the sentinels are in flight, a transfer window that is used up has a frame in
/// flight, whose acknowledgement will move it.
pub proof fn full_window_has_frame_in_flight(queue: TransferQueueView)
    requires
        queue.wf(),
        sentinels_in_flight(queue),
        !queue.can_send(),
    ensures
        queue.entries.len() > 0,
{
    let base = queue.base_sequence_id;
    let id = (base - base % SENTINEL_FRAME_SPACING + SENTINEL_FRAME_SPACING - 1) as u32;
    assert(is_sentinel_id(id));
    assert(id.wrapping_sub(base) < SENTINEL_FRAME_SPACING);
    assert(queue.in_flight(id));
}

/// A new queue has its sentinels in flight.
pub proof fn new_queue_has_sentinels_in_flight(queue: TransferQueueView)
    requires
        queue.next_sequence_id == queue.base_sequence_id,
    ensures
        sentinels_in_flight(queue),
{
}

/// Sending a frame keeps the sentinels in flight.
pub proof fn sending_keeps_sentinels_in_flight(
    queue: TransferQueueView,
    rel_dgs: Seq<DataEntry>,
    unrel_dgs: Seq<DataEntry>,
    now: Instant,
)
    requires
        queue.wf(),
        queue.can_send(),
        sentinels_in_flight(queue),
    ensures
        sentinels_in_flight(queue.after_send(rel_dgs, unrel_dgs, now)),
{
    let after = queue.after_send(rel_dgs, unrel_dgs, now);
    assert forall|id: u32|
        is_sentinel_id(id) && id.wrapping_sub(after.base_sequence_id)
            < after.next_sequence_id.wrapping_sub(
            after.base_sequence_id,
        ) implies #[trigger] after.in_flight(id) by {
        let n = queue.entries.len() as int;
        if id == queue.next_sequence_id {
            assert(after.entries[n].sequence_id == id);
        } else {
            assert(queue.in_flight(id));
            let i = queue.position(id);
            assert(after.entries[i] == queue.entries[i]);
        }
    }
}

proof fn lemma_flush_entries_sentinel(
    entries: Seq<TransferEntryView>,
    window: nat,
    now: Instant,
    timeout: Duration,
    i: int,
)
    requires
        0 <= i < entries.len(),
        is_sentinel_id(entries[i].sequence_id),
    ensures
        exists|k: int|
            0 <= k < flush_entries(entries, window, now, timeout).entries.len() && (
            #[trigger] flush_entries(entries, window, now, timeout).entries[k]).sequence_id
                == entries[i].sequence_id,
    decreases entries.len(),
{
    let init = entries.drop_last();
    let before = flush_entries(init, window, now, timeout).entries;
    let after = flush_entries(entries, window, now, timeout).entries;
    if i == entries.len() - 1 {
        assert(after[before.len() as int].sequence_id == entries[i].sequence_id);
    } else {
        lemma_flush_entries_sentinel(init, window, now, timeout, i);
        let k = choose|k: int|
            0 <= k < before.len() && (#[trigger] before[k]).sequence_id == init[i].sequence_id;
        assert(after[k] == before[k]);
    }
}

/// A flush keeps the sentinels in flight.
pub proof fn flush_keeps_sentinels_in_flight(
    queue: TransferQueueView,
    now: Instant,
    timeout: Duration,
)
    requires
        sentinels_in_flight(queue),
    ensures
        sentinels_in_flight(queue.after_flush(now, timeout)),
{
    let after = queue.after_flush(now, timeout);
    assert forall|id: u32|
        is_sentinel_id(id) && id.wrapping_sub(after.base_sequence_id)
            < after.next_sequence_id.wrapping_sub(
            after.base_sequence_id,
        ) implies #[trigger] after.in_flight(id) by {
        assert(queue.in_flight(id));
        let i = queue.position(id);
        assert(queue.entries[i].sequence_id == id);
        lemma_flush_entries_sentinel(queue.entries, queue.window, now, timeout, i);
    }
}

/// An acknowledgement keeps the sentinels of the window in flight, unless it takes a sentinel
/// from behind an older frame.
pub proof fn acknowledgement_keeps_sentinels_in_flight(
    queue: TransferQueueView,
    sequence_id: u32,
)
    requires
        queue.wf(),
        sentinels_in_flight(queue),
        is_sentinel_id(sequence_id) && queue.in_flight(sequence_id)
            ==> queue.entries[0].sequence_id == sequence_id,
    ensures
        sentinels_in_flight(queue.after_ack(sequence_id)),
{
    let after = queue.after_ack(sequence_id);
    acknowledgement_takes_one_frame(queue, sequence_id);
    acknowledgement_makes_room(queue, sequence_id);
    if queue.in_flight(sequence_id) {
        let p = queue.position(sequence_id);
        assert(queue.entries[p].sequence_id == sequence_id);
        assert forall|id: u32|
            is_sentinel_id(id) && id.wrapping_sub(after.base_sequence_id)
                < after.next_sequence_id.wrapping_sub(
                after.base_sequence_id,
            ) implies #[trigger] after.in_flight(id) by {
            assert(queue.in_flight(id));
            if id == sequence_id {
                assert(queue.entries[0].sequence_id == sequence_id);
                if after.entries.len() > 0 {
                    assert(p == 0);
                    assert(after.entries[0] == queue.entries[1]);
                }
            }
        }
    }
}

} // verus!
