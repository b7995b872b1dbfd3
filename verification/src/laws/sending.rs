//! Laws of sending: which datagrams leave, in which frames, and which ones wait on.
use crate::frame::{data_frame, entries_size, Data};
use crate::frame_io::{
    after_acks, datagrams, fitting, lemma_transmit_taken, lemma_without_front, min,
    next_frame_len, transmit, FrameIOView,
};
use crate::laws::flight::{
    acknowledgements_keep_reliable_frame, awaits, flush_keeps_frames_within_limit,
    flush_keeps_reliable_frame, flush_keeps_sentinels_in_flight, frames_within_limit,
    full_window_has_frame_in_flight, sending_keeps_sentinels_in_flight, sentinels_in_flight,
};
use crate::send_queue::{all_fit, SendEntry};
use crate::time::{Duration, Instant};
use crate::transfer_entry::TransferEntryView;
use crate::transfer_queue::{
    combined_frame, entry_for, lemma_after_flush_wf, lemma_after_send_wf, lemma_entry_for_size,
    TransferQueueView,
};
use crate::MTU;
use vstd::prelude::*;

verus! {

/// The bytes that `entries` take in a frame.
pub open spec fn waiting_size(entries: Seq<SendEntry>) -> nat
    decreases entries.len(),
{
    if entries.len() == 0 {
        0
    } else {
        waiting_size(entries.drop_last()) + entries.last().data.bytes@.len()
    }
}

proof fn lemma_waiting_size_first(entries: Seq<SendEntry>)
    requires
        entries.len() > 0,
    ensures
        waiting_size(entries) == entries[0].data.bytes@.len() + waiting_size(entries.skip(1)),
    decreases entries.len(),
{
    if entries.len() > 1 {
        lemma_waiting_size_first(entries.drop_last());
        assert(entries.drop_last().skip(1) =~= entries.skip(1).drop_last());
    } else {
        assert(entries.drop_last() =~= Seq::empty());
        assert(entries.skip(1) =~= Seq::empty());
    }
}

proof fn lemma_datagrams_size(entries: Seq<SendEntry>)
    ensures
        entries_size(datagrams(entries, true)) + entries_size(datagrams(entries, false))
            == waiting_size(entries),
    decreases entries.len(),
{
    if entries.len() > 0 {
        lemma_datagrams_size(entries.drop_last());
        let kind = datagrams(entries.drop_last(), entries.last().reliable);
        assert(kind.push(entries.last().data).drop_last() =~= kind);
    }
}

proof fn lemma_fitting_maximal(entries: Seq<SendEntry>, used: nat, limit: nat)
    ensures
        ({
            let n = fitting(entries, used, limit);
            &&& n <= entries.len()
            &&& n > 0 ==> used + waiting_size(entries.take(n as int)) <= limit
            &&& n < entries.len() ==> used + waiting_size(entries.take((n + 1) as int)) > limit
        }),
    decreases entries.len(),
{
    if entries.len() > 0 {
        let first = entries[0].data.bytes@.len();
        let n = fitting(entries, used, limit);
        if used + first > limit {
            assert(entries.take(1).drop_last() =~= Seq::empty());
            assert(waiting_size(entries.take(1)) == first) by {
                reveal_with_fuel(waiting_size, 2);
            }
        } else {
            lemma_fitting_maximal(entries.skip(1), used + first, limit);
            lemma_waiting_size_first(entries.take(n as int));
            assert(entries.take(n as int).skip(1) =~= entries.skip(1).take(n - 1));
            if n < entries.len() {
                lemma_waiting_size_first(entries.take((n + 1) as int));
                assert(entries.take((n + 1) as int).skip(1) =~= entries.skip(1).take(n as int));
            }
            if n == 1 {
                assert(entries.skip(1).take(0) =~= Seq::empty());
            }
        }
    }
}

/// The next frame takes as many of the waiting datagrams as possible, in order: they fit the
/// frame size limit and the congestion window, and with one more they would not.
pub proof fn frame_is_filled(queue: TransferQueueView, entries: Seq<SendEntry>)
    ensures
        ({
            let n = next_frame_len(queue, entries);
            let fits = |k: nat|
                {
                    let frame_size = 6 + waiting_size(entries.take(k as int));
                    frame_size <= 1472 && queue.size + frame_size <= queue.window
                };
            &&& n <= entries.len()
            &&& n > 0 ==> fits(n)
            &&& n < entries.len() ==> !fits(n + 1)
        }),
{
    lemma_fitting_maximal(
        entries,
        Data::HEADER_SIZE_BYTES as nat,
        min(MTU as nat, queue.free_space()),
    );
}

/// The frame that sending builds next, and the queue behind it.
pub proof fn lemma_next_frame(queue: TransferQueueView, entries: Seq<SendEntry>, now: Instant)
    requires
        next_frame_len(queue, entries) > 0,
    ensures
        ({
            let n = next_frame_len(queue, entries);
            let rel_dgs = datagrams(entries.take(n as int), true);
            let unrel_dgs = datagrams(entries.take(n as int), false);
            let frame = combined_frame(queue.next_sequence_id, rel_dgs, unrel_dgs);
            &&& n <= entries.len()
            &&& frame.len() == Data::HEADER_SIZE_BYTES + waiting_size(entries.take(n as int))
            &&& frame.len() <= MTU
            &&& queue.size + frame.len() <= queue.window
            &&& entry_for(queue.next_sequence_id, rel_dgs, unrel_dgs, now).size() == frame.len()
        }),
{
    let n = next_frame_len(queue, entries);
    let rel_dgs = datagrams(entries.take(n as int), true);
    let unrel_dgs = datagrams(entries.take(n as int), false);
    frame_is_filled(queue, entries);
    lemma_datagrams_size(entries.take(n as int));
    lemma_entry_for_size(queue.next_sequence_id, rel_dgs, unrel_dgs, now);
}

/// No frame that sending builds exceeds the frame size limit.
pub proof fn sent_frames_keep_to_limit(
    queue: TransferQueueView,
    entries: Seq<SendEntry>,
    now: Instant,
)
    ensures
        forall|i: int|
            0 <= i < transmit(queue, entries, now).frames.len() ==> (#[trigger] transmit(
                queue,
                entries,
                now,
            ).frames[i]).len() <= MTU,
    decreases entries.len(),
{
    let n = next_frame_len(queue, entries);
    if queue.can_send() && n > 0 {
        lemma_next_frame(queue, entries, now);
        let rel_dgs = datagrams(entries.take(n as int), true);
        let unrel_dgs = datagrams(entries.take(n as int), false);
        let after = queue.after_send(rel_dgs, unrel_dgs, now);
        let rest = transmit(after, entries.skip(n as int), now);
        sent_frames_keep_to_limit(after, entries.skip(n as int), now);
        let frames = transmit(queue, entries, now).frames;
        assert forall|i: int| 0 <= i < frames.len() implies (#[trigger] frames[i]).len()
            <= MTU by {
            if i > 0 {
                assert(frames[i] == rest.frames[i - 1]);
            }
        }
    }
}

/// Sending respects the windows: the ids in flight stay within a transfer window, and what is in
/// flight once something was sent fits the congestion window. The frames that were in flight
/// before stay as they are, and each frame that is sent joins them.
pub proof fn sending_respects_windows(
    queue: TransferQueueView,
    entries: Seq<SendEntry>,
    now: Instant,
)
    requires
        queue.wf(),
    ensures
        ({
            let sent = transmit(queue, entries, now);
            &&& sent.transfer.wf()
            &&& sent.taken > 0 ==> sent.transfer.size <= sent.transfer.window
            &&& sent.transfer.window == queue.window
            &&& sent.transfer.base_sequence_id == queue.base_sequence_id
            &&& sent.transfer.entries.len() == queue.entries.len() + sent.frames.len()
            &&& queue.entries.is_prefix_of(sent.transfer.entries)
        }),
    decreases entries.len(),
{
    let n = next_frame_len(queue, entries);
    if queue.can_send() && n > 0 {
        lemma_next_frame(queue, entries, now);
        let rel_dgs = datagrams(entries.take(n as int), true);
        let unrel_dgs = datagrams(entries.take(n as int), false);
        let after = queue.after_send(rel_dgs, unrel_dgs, now);
        lemma_after_send_wf(queue, rel_dgs, unrel_dgs, now);
        sending_respects_windows(after, entries.skip(n as int), now);
        let sent = transmit(queue, entries, now);
        assert(queue.entries =~= sent.transfer.entries.take(queue.entries.len() as int)) by {
            assert(after.entries =~= sent.transfer.entries.take(after.entries.len() as int));
            assert forall|i: int| 0 <= i < queue.entries.len() implies queue.entries[i]
                == sent.transfer.entries[i] by {
                assert(after.entries[i] == queue.entries[i]);
                assert(sent.transfer.entries.take(after.entries.len() as int)[i]
                    == after.entries[i]);
            }
        }
    }
}

/// Sending goes on for as long as possible: it stops when no datagram waits, when the transfer
/// window is used up, or when the next datagram does not fit the congestion window.
pub proof fn sending_is_maximal(queue: TransferQueueView, entries: Seq<SendEntry>, now: Instant)
    requires
        all_fit(entries),
    ensures
        ({
            let sent = transmit(queue, entries, now);
            ||| sent.taken == entries.len()
            ||| sent.transfer.next_sequence_id.wrapping_sub(sent.transfer.base_sequence_id) >= 128
            ||| sent.taken < entries.len() && sent.transfer.size + 6
                + entries[sent.taken as int].data.bytes@.len() > sent.transfer.window
        }),
    decreases entries.len(),
{
    let n = next_frame_len(queue, entries);
    lemma_transmit_taken(queue, entries, now);
    if queue.can_send() && n > 0 {
        lemma_next_frame(queue, entries, now);
        let rel_dgs = datagrams(entries.take(n as int), true);
        let unrel_dgs = datagrams(entries.take(n as int), false);
        let after = queue.after_send(rel_dgs, unrel_dgs, now);
        let left = entries.skip(n as int);
        assert forall|i: int| 0 <= i < left.len() implies Data::HEADER_SIZE_BYTES + (
        #[trigger] left[i]).data.bytes@.len() <= MTU by {
            assert(left[i] == entries[n + i]);
        }
        lemma_transmit_taken(after, left, now);
        sending_is_maximal(after, left, now);
    }
}

/// The sequence id `n` after `first`.
pub open spec fn id_after(first: u32, n: int) -> u32 {
    ((first + n) % 0x1_0000_0000) as u32
}

/// The frames, from the one with sequence id `first`, carry one group of datagrams each: the
/// reliable ones of the group, then the others.
pub open spec fn carry(
    frames: Seq<Seq<u8>>,
    first: u32,
    groups: Seq<Seq<SendEntry>>,
) -> bool {
    &&& frames.len() == groups.len()
    &&& forall|i: int|
        #![trigger groups[i]]
        0 <= i < groups.len() ==> groups[i].len() > 0 && frames[i] == combined_frame(
            id_after(first, i),
            datagrams(groups[i], true),
            datagrams(groups[i], false),
        )
}

/// The entries for the frames that carry one group of datagrams each, from the one with sequence
/// id `first`.
pub open spec fn group_entries(
    first: u32,
    groups: Seq<Seq<SendEntry>>,
    now: Instant,
) -> Seq<TransferEntryView> {
    Seq::new(
        groups.len(),
        |i: int|
            entry_for(
                id_after(first, i),
                datagrams(groups[i], true),
                datagrams(groups[i], false),
                now,
            ),
    )
}

/// The sequence ids behind the next one are those one further on.
pub proof fn lemma_id_after(first: u32, n: int)
    ensures
        id_after(first.wrapping_add(1), n) == id_after(first, n + 1),
        id_after(first, 0) == first,
{
}

/// A frame in front of others carries its group in front of theirs.
pub proof fn lemma_carry_first(
    frame: Seq<u8>,
    group: Seq<SendEntry>,
    frames: Seq<Seq<u8>>,
    first: u32,
    groups: Seq<Seq<SendEntry>>,
    now: Instant,
)
    requires
        group.len() > 0,
        frame == combined_frame(first, datagrams(group, true), datagrams(group, false)),
        carry(frames, first.wrapping_add(1), groups),
    ensures
        carry(seq![frame] + frames, first, seq![group] + groups),
        (seq![group] + groups).flatten() == group + groups.flatten(),
        group_entries(first, seq![group] + groups, now) == seq![
            entry_for(first, datagrams(group, true), datagrams(group, false), now),
        ] + group_entries(first.wrapping_add(1), groups, now),
{
    let all_frames = seq![frame] + frames;
    let all_groups = seq![group] + groups;
    lemma_id_after(first, 0);
    assert forall|i: int| #![trigger all_groups[i]] 0 <= i < all_groups.len() implies
        all_groups[i].len() > 0 && all_frames[i] == combined_frame(
        id_after(first, i),
        datagrams(all_groups[i], true),
        datagrams(all_groups[i], false),
    ) by {
        if i > 0 {
            lemma_id_after(first, i - 1);
            assert(all_groups[i] == groups[i - 1]);
            assert(all_frames[i] == frames[i - 1]);
        }
    }
    assert(all_groups.drop_first() =~= groups);
    let rest_entries = group_entries(first.wrapping_add(1), groups, now);
    let all_entries = group_entries(first, all_groups, now);
    assert forall|i: int| 0 < i < all_entries.len() implies all_entries[i] == rest_entries[i
        - 1] by {
        lemma_id_after(first, i - 1);
        assert(all_groups[i] == groups[i - 1]);
    }
    assert(all_entries =~= seq![
        entry_for(first, datagrams(group, true), datagrams(group, false), now),
    ] + rest_entries);
}

/// The frames that are sent carry the datagrams that left, each one once and in order, under
/// successive sequence ids. For each frame an entry joins those in flight, made of the very
/// datagrams that the frame carries.
pub proof fn sending_carries_datagrams_in_order(
    queue: TransferQueueView,
    entries: Seq<SendEntry>,
    now: Instant,
)
    ensures
        transmit(queue, entries, now).taken <= entries.len(),
        transmit(queue, entries, now).transfer.next_sequence_id == id_after(
            queue.next_sequence_id,
            transmit(queue, entries, now).frames.len() as int,
        ),
        exists|groups: Seq<Seq<SendEntry>>| #[trigger]
            carry(transmit(queue, entries, now).frames, queue.next_sequence_id, groups)
                && groups.flatten() == entries.take(transmit(queue, entries, now).taken as int)
                && transmit(queue, entries, now).transfer.entries == queue.entries
                + group_entries(queue.next_sequence_id, groups, now),
    decreases entries.len(),
{
    let n = next_frame_len(queue, entries);
    let sent = transmit(queue, entries, now);
    let first = queue.next_sequence_id;
    lemma_transmit_taken(queue, entries, now);
    if queue.can_send() && n > 0 {
        lemma_next_frame(queue, entries, now);
        let group = entries.take(n as int);
        let rel_dgs = datagrams(group, true);
        let unrel_dgs = datagrams(group, false);
        let after = queue.after_send(rel_dgs, unrel_dgs, now);
        let left = entries.skip(n as int);
        let rest = transmit(after, left, now);
        sending_carries_datagrams_in_order(after, left, now);
        let groups = choose|groups: Seq<Seq<SendEntry>>| #[trigger]
            carry(rest.frames, after.next_sequence_id, groups) && groups.flatten() == left.take(
                rest.taken as int,
            ) && rest.transfer.entries == after.entries + group_entries(
                after.next_sequence_id,
                groups,
                now,
            );
        let frame = combined_frame(first, rel_dgs, unrel_dgs);
        let all_groups = seq![group] + groups;
        lemma_carry_first(frame, group, rest.frames, first, groups, now);
        lemma_id_after(first, rest.frames.len() as int);
        assert(sent.frames == seq![frame] + rest.frames);
        assert(group + groups.flatten() =~= entries.take(sent.taken as int));
        assert(sent.transfer.entries =~= queue.entries + group_entries(first, all_groups, now));
        assert(carry(sent.frames, first, all_groups));
    } else {
        let groups = Seq::<Seq<SendEntry>>::empty();
        lemma_id_after(first, 0);
        assert(carry(sent.frames, first, groups));
        assert(groups.flatten() =~= entries.take(0));
        assert(queue.entries + group_entries(first, groups, now) =~= queue.entries);
    }
}

/// Each frame in flight stays as it is when others are sent, in front of them.
proof fn lemma_transmit_appends(queue: TransferQueueView, entries: Seq<SendEntry>, now: Instant)
    ensures
        ({
            let sent = transmit(queue, entries, now);
            &&& sent.transfer.entries.len() == queue.entries.len() + sent.frames.len()
            &&& forall|i: int|
                0 <= i < queue.entries.len() ==> #[trigger] sent.transfer.entries[i]
                    == queue.entries[i]
        }),
{
    sending_carries_datagrams_in_order(queue, entries, now);
}

/// Of the datagrams `from` to `to`, which include the one at place `i`, frame `k` of those sent is
/// made, and so is the entry in flight for it. What that entry sends again holds the datagram at
/// place `i`, if it is reliable, behind the reliable ones before it.
pub open spec fn travels_in(
    queue: TransferQueueView,
    entries: Seq<SendEntry>,
    now: Instant,
    i: int,
    from: int,
    to: int,
    k: int,
) -> bool {
    let sent = transmit(queue, entries, now);
    let id = id_after(queue.next_sequence_id, k);
    let rel_dgs = datagrams(entries.subrange(from, to), true);
    let unrel_dgs = datagrams(entries.subrange(from, to), false);
    let entry = sent.transfer.entries[queue.entries.len() + k];
    &&& 0 <= from <= i < to <= sent.taken <= entries.len()
    &&& 0 <= k < sent.frames.len()
    &&& queue.entries.len() + k < sent.transfer.entries.len()
    &&& sent.frames[k] == combined_frame(id, rel_dgs, unrel_dgs)
    &&& entry == entry_for(id, rel_dgs, unrel_dgs, now)
    &&& entries[i].reliable ==> {
        let place = datagrams(entries.subrange(from, i), true).len();
        &&& entry.resend_frame == Some(data_frame(true, id, rel_dgs))
        &&& place < rel_dgs.len()
        &&& rel_dgs[place as int] == entries[i].data
    }
}

proof fn lemma_datagrams_place(entries: Seq<SendEntry>, i: int)
    requires
        0 <= i < entries.len(),
    ensures
        ({
            let kind = entries[i].reliable;
            let place = datagrams(entries.take(i), kind).len();
            &&& place < datagrams(entries, kind).len()
            &&& datagrams(entries, kind)[place as int] == entries[i].data
        }),
    decreases entries.len(),
{
    if i < entries.len() - 1 {
        let init = entries.drop_last();
        lemma_datagrams_place(init, i);
        assert(init.take(i) =~= entries.take(i));
        assert(init[i] == entries[i]);
    } else {
        assert(entries.take(i) =~= entries.drop_last());
    }
}

/// A datagram that leaves travels in one frame. If it is reliable, it is in what the entry for
/// that frame sends again.
pub proof fn sent_datagram_travels_in_frame(
    queue: TransferQueueView,
    entries: Seq<SendEntry>,
    now: Instant,
    i: int,
)
    requires
        0 <= i < transmit(queue, entries, now).taken,
    ensures
        exists|from: int, to: int, k: int|
            travels_in(queue, entries, now, i, from, to, k),
    decreases entries.len(),
{
    let n = next_frame_len(queue, entries) as int;
    let first = queue.next_sequence_id;
    let sent = transmit(queue, entries, now);
    lemma_next_frame(queue, entries, now);
    lemma_transmit_taken(queue, entries, now);
    let rel_dgs = datagrams(entries.take(n), true);
    let unrel_dgs = datagrams(entries.take(n), false);
    let after = queue.after_send(rel_dgs, unrel_dgs, now);
    let left = entries.skip(n);
    let rest = transmit(after, left, now);
    lemma_transmit_appends(after, left, now);
    if i < n {
        let group = entries.subrange(0, n);
        assert(group =~= entries.take(n));
        lemma_id_after(first, 0);
        lemma_datagrams_place(group, i);
        assert(group.take(i) =~= entries.subrange(0, i));
        assert(sent.transfer.entries[queue.entries.len() as int]
            == after.entries[queue.entries.len() as int]);
        assert(travels_in(queue, entries, now, i, 0, n, 0));
    } else {
        let j: int = i - n;
        sent_datagram_travels_in_frame(after, left, now, j);
        let (from, to, k) = choose|from: int, to: int, k: int|
            travels_in(after, left, now, j, from, to, k);
        lemma_id_after(first, k);
        assert(left[j] == entries[i]);
        assert(left.subrange(from, to) =~= entries.subrange(from + n, to + n));
        assert(left.subrange(from, j) =~= entries.subrange(from + n, i));
        assert(sent.frames[k + 1] == rest.frames[k]);
        assert(travels_in(queue, entries, now, i, from + n, to + n, k + 1));
    }
}

/// After a flush the datagrams that wait are the reliable ones that were not sent, in the order
/// in which they waited.
pub proof fn reliable_datagrams_wait_in_order(
    state: FrameIOView,
    now: Instant,
    timeout: Duration,
)
    ensures
        ({
            let taken = state.transmission(now, timeout).taken;
            let reliable = |e: SendEntry| e.reliable;
            &&& taken <= state.send.order().len()
            &&& state.after_flush(now, timeout).send.order() == state.send.order().skip(
                taken as int,
            ).filter(reliable)
        }),
{
    let taken = state.transmission(now, timeout).taken;
    let reliable = |e: SendEntry| e.reliable;
    lemma_transmit_taken(state.transfer.after_flush(now, timeout), state.send.order(), now);
    lemma_without_front(state.send, taken, 0);
    let waiting = state.send.without_front(taken);
    Seq::filter_distributes_over_add(waiting.high, waiting.low, reliable);
}

/// No unreliable datagram waits after a flush, whether or not it was sent.
pub proof fn unreliable_datagrams_do_not_wait(
    state: FrameIOView,
    now: Instant,
    timeout: Duration,
)
    ensures
        forall|i: int|
            0 <= i < state.after_flush(now, timeout).send.order().len() ==> (
            #[trigger] state.after_flush(now, timeout).send.order()[i]).reliable,
{
    let taken = state.transmission(now, timeout).taken;
    let reliable = |e: SendEntry| e.reliable;
    reliable_datagrams_wait_in_order(state, now, timeout);
    let left = state.send.order().skip(taken as int);
    assert forall|i: int| 0 <= i < left.filter(reliable).len() implies (#[trigger] left.filter(
        reliable,
    )[i]).reliable by {
        left.lemma_filter_pred(reliable, i);
    }
}

/// A datagram that is enqueued waits behind those of its priority, and those of low priority
/// wait behind those of high priority. The others wait in the order in which they did.
pub proof fn enqueued_datagram_waits_in_its_place(
    state: FrameIOView,
    entry: SendEntry,
    high_priority: bool,
)
    ensures
        ({
            let place = if high_priority {
                state.send.high.len()
            } else {
                state.send.order().len()
            };
            state.with_datagram(entry, high_priority).send.order() == state.send.order().insert(
                place as int,
                entry,
            )
        }),
{
    let place = if high_priority {
        state.send.high.len()
    } else {
        state.send.order().len()
    };
    assert(state.with_datagram(entry, high_priority).send.order() =~= state.send.order().insert(
        place as int,
        entry,
    ));
}

/// A flush keeps every reliable datagram that waits. It leaves in a frame and is in what that
/// frame sends again, or it waits on behind the reliable ones that waited before it.
pub proof fn flush_keeps_reliable_datagram(
    state: FrameIOView,
    now: Instant,
    timeout: Duration,
    i: int,
)
    requires
        0 <= i < state.send.order().len(),
        state.send.order()[i].reliable,
    ensures
        ({
            let flushed = state.transfer.after_flush(now, timeout);
            let order = state.send.order();
            let taken = state.transmission(now, timeout).taken;
            let waiting = state.after_flush(now, timeout).send.order();
            let reliable = |e: SendEntry| e.reliable;
            if i < taken {
                exists|from: int, to: int, k: int|
                    travels_in(flushed, order, now, i, from, to, k)
            } else {
                let place = order.subrange(taken as int, i).filter(reliable).len();
                place < waiting.len() && waiting[place as int] == order[i]
            }
        }),
{
    let flushed = state.transfer.after_flush(now, timeout);
    let order = state.send.order();
    let taken = state.transmission(now, timeout).taken as int;
    let reliable = |e: SendEntry| e.reliable;
    if i < taken {
        sent_datagram_travels_in_frame(flushed, order, now, i);
    } else {
        reliable_datagrams_wait_in_order(state, now, timeout);
        let before = order.subrange(taken, i);
        let head = before.push(order[i]);
        let tail = order.skip(i + 1);
        assert(order.skip(taken) =~= head + tail);
        Seq::filter_distributes_over_add(head, tail, reliable);
        assert(head.filter(reliable) == before.filter(reliable).push(order[i])) by {
            reveal(Seq::filter);
            assert(head.drop_last() =~= before);
        }
    }
}

/// A reliable datagram that left stays in what its frame sends again until an acknowledgement
/// names that frame.
pub proof fn acknowledgements_keep_reliable_datagram(
    queue: TransferQueueView,
    entries: Seq<SendEntry>,
    now: Instant,
    i: int,
    from: int,
    to: int,
    k: int,
    ids: Seq<u32>,
)
    requires
        queue.wf(),
        travels_in(queue, entries, now, i, from, to, k),
        entries[i].reliable,
        !ids.contains(id_after(queue.next_sequence_id, k)),
    ensures
        ({
            let id = id_after(queue.next_sequence_id, k);
            let rel_dgs = datagrams(entries.subrange(from, to), true);
            let after = after_acks(transmit(queue, entries, now).transfer, ids);
            awaits(after.entries, id, Some(data_frame(true, id, rel_dgs)))
        }),
{
    let id = id_after(queue.next_sequence_id, k);
    let rel_dgs = datagrams(entries.subrange(from, to), true);
    let sent = transmit(queue, entries, now).transfer;
    sending_respects_windows(queue, entries, now);
    assert(sent.entries[queue.entries.len() + k].sequence_id == id);
    acknowledgements_keep_reliable_frame(sent, ids, id, Some(data_frame(true, id, rel_dgs)));
}

/// A frame that is to be sent again stays in flight through a flush of one end, with the same
/// bytes.
pub proof fn flush_keeps_reliable_frame_in_flight(
    state: FrameIOView,
    now: Instant,
    timeout: Duration,
    sequence_id: u32,
    frame: Seq<u8>,
)
    requires
        awaits(state.transfer.entries, sequence_id, Some(frame)),
    ensures
        awaits(state.after_flush(now, timeout).transfer.entries, sequence_id, Some(frame)),
{
    let queue = state.transfer;
    let flushed = queue.after_flush(now, timeout);
    let i = choose|i: int|
        0 <= i < queue.entries.len() && (#[trigger] queue.entries[i]).sequence_id == sequence_id
            && queue.entries[i].resend_frame == Some(frame);
    flush_keeps_reliable_frame(queue, now, timeout, i);
    let k = choose|k: int|
        0 <= k < flushed.entries.len() && (#[trigger] flushed.entries[k]).sequence_id
            == sequence_id && flushed.entries[k].resend_frame == Some(frame);
    lemma_transmit_appends(flushed, state.send.order(), now);
    let after = state.after_flush(now, timeout).transfer.entries;
    assert(after[k] == flushed.entries[k]);
}

/// An unreliable datagram is sent at most once: after a flush it does not wait, and if it left,
/// the loss of its frame leaves nothing but the reliable datagrams of that frame to send again.
pub proof fn unreliable_datagram_is_sent_at_most_once(
    state: FrameIOView,
    now: Instant,
    timeout: Duration,
    i: int,
    later: Instant,
)
    requires
        0 <= i < state.send.order().len(),
        !state.send.order()[i].reliable,
    ensures
        ({
            let flushed = state.transfer.after_flush(now, timeout);
            let order = state.send.order();
            let after = state.after_flush(now, timeout);
            &&& forall|j: int|
                0 <= j < after.send.order().len() ==> (#[trigger] after.send.order()[j]).reliable
            &&& i < state.transmission(now, timeout).taken ==> exists|
                from: int,
                to: int,
                k: int,
            |
                #![trigger travels_in(flushed, order, now, i, from, to, k)]
                {
                    let entry = after.transfer.entries[flushed.entries.len() + k];
                    &&& travels_in(flushed, order, now, i, from, to, k)
                    &&& entry.after_timeout(later) matches Some(left) ==> left.resend_frame
                        == Some(
                        data_frame(
                            true,
                            entry.sequence_id,
                            datagrams(order.subrange(from, to), true),
                        ),
                    )
                }
        }),
{
    let flushed = state.transfer.after_flush(now, timeout);
    let order = state.send.order();
    unreliable_datagrams_do_not_wait(state, now, timeout);
    if i < state.transmission(now, timeout).taken {
        sent_datagram_travels_in_frame(flushed, order, now, i);
        let (from, to, k) = choose|from: int, to: int, k: int|
            travels_in(flushed, order, now, i, from, to, k);
        let rel_dgs = datagrams(order.subrange(from, to), true);
        if rel_dgs.len() == 0 {
            assert(rel_dgs =~= Seq::empty());
        }
        assert(travels_in(flushed, order, now, i, from, to, k));
    }
}

proof fn lemma_transmit_within_limit(
    queue: TransferQueueView,
    entries: Seq<SendEntry>,
    now: Instant,
)
    requires
        frames_within_limit(queue),
    ensures
        frames_within_limit(transmit(queue, entries, now).transfer),
    decreases entries.len(),
{
    let n = next_frame_len(queue, entries);
    if queue.can_send() && n > 0 {
        lemma_next_frame(queue, entries, now);
        let rel_dgs = datagrams(entries.take(n as int), true);
        let unrel_dgs = datagrams(entries.take(n as int), false);
        let after = queue.after_send(rel_dgs, unrel_dgs, now);
        assert forall|i: int| 0 <= i < after.entries.len() implies #[trigger] after.entries[
            i
        ].size() <= MTU by {
            if i < queue.entries.len() {
                assert(after.entries[i] == queue.entries[i]);
                assert(queue.entries[i].size() <= MTU);
            }
        }
        lemma_transmit_within_limit(after, entries.skip(n as int), now);
    }
}

/// A flush of one end keeps the frames in flight within the frame size limit.
pub proof fn flush_keeps_end_within_limit(state: FrameIOView, now: Instant, timeout: Duration)
    requires
        state.transfer.entries_wf(),
        frames_within_limit(state.transfer),
    ensures
        frames_within_limit(state.after_flush(now, timeout).transfer),
{
    flush_keeps_frames_within_limit(state.transfer, now, timeout);
    lemma_transmit_within_limit(
        state.transfer.after_flush(now, timeout),
        state.send.order(),
        now,
    );
}

proof fn lemma_transmit_keeps_sentinels(
    queue: TransferQueueView,
    entries: Seq<SendEntry>,
    now: Instant,
)
    requires
        queue.wf(),
        sentinels_in_flight(queue),
    ensures
        sentinels_in_flight(transmit(queue, entries, now).transfer),
    decreases entries.len(),
{
    let n = next_frame_len(queue, entries);
    if queue.can_send() && n > 0 {
        lemma_next_frame(queue, entries, now);
        let rel_dgs = datagrams(entries.take(n as int), true);
        let unrel_dgs = datagrams(entries.take(n as int), false);
        lemma_after_send_wf(queue, rel_dgs, unrel_dgs, now);
        sending_keeps_sentinels_in_flight(queue, rel_dgs, unrel_dgs, now);
        lemma_transmit_keeps_sentinels(
            queue.after_send(rel_dgs, unrel_dgs, now),
            entries.skip(n as int),
            now,
        );
    }
}

/// A flush of one end keeps the sentinels of its transfer window in flight, so that a transfer
/// window that it uses up has a frame in flight.
pub proof fn flush_leaves_window_movable(state: FrameIOView, now: Instant, timeout: Duration)
    requires
        state.wf(),
        state.transfer.entries_wf(),
        sentinels_in_flight(state.transfer),
    ensures
        ({
            let after = state.after_flush(now, timeout).transfer;
            &&& sentinels_in_flight(after)
            &&& !after.can_send() ==> after.entries.len() > 0
        }),
{
    let flushed = state.transfer.after_flush(now, timeout);
    let after = state.after_flush(now, timeout).transfer;
    lemma_after_flush_wf(state.transfer, now, timeout);
    flush_keeps_sentinels_in_flight(state.transfer, now, timeout);
    lemma_transmit_keeps_sentinels(flushed, state.send.order(), now);
    sending_respects_windows(flushed, state.send.order(), now);
    if !after.can_send() {
        full_window_has_frame_in_flight(after);
    }
}

/// An end with nothing to send, nothing in flight and nothing to acknowledge sends no frame, and
/// a flush leaves it as it is.
pub proof fn idle_flush_does_nothing(state: FrameIOView, now: Instant, timeout: Duration)
    requires
        state.wf(),
        state.send.order().len() == 0,
        state.transfer.entries.len() == 0,
        state.acks.len() == 0,
    ensures
        state.after_flush(now, timeout) == state,
        state.flushed_frames(now, timeout).len() == 0,
{
    let after = state.after_flush(now, timeout);
    let reliable = |e: SendEntry| e.reliable;
    assert(state.transfer.after_flush(now, timeout) =~= state.transfer);
    assert(state.send.high.len() == 0 && state.send.low.len() == 0);
    reveal(Seq::filter);
    assert(after.send.high =~= state.send.high);
    assert(after.send.low =~= state.send.low);
    assert(after.acks =~= state.acks);
}

} // verus!
