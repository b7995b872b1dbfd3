//! Laws of packing: how the waiting datagrams are shared out among frames.
use crate::frame::DataEntry;
use crate::frame_io::{
    datagrams, lemma_transmit_taken, next_frame_len, reaches_oversized, transmit,
};
use crate::laws::sending::{
    carry, frame_is_filled, group_entries, id_after, lemma_carry_first, lemma_id_after,
    lemma_next_frame, waiting_size,
};
use crate::send_queue::SendEntry;
use crate::time::Instant;
use crate::transfer_queue::{combined_frame, TransferQueueView};
use vstd::prelude::*;

verus! {

/// The datagrams of one kind are those of a first part and then those of the rest, and of a single
/// entry it is its own, or none.
pub proof fn datagrams_keep_their_order(
    a: Seq<SendEntry>,
    b: Seq<SendEntry>,
    entry: SendEntry,
    reliable: bool,
)
    ensures
        datagrams(Seq::empty(), reliable) == Seq::<DataEntry>::empty(),
        entry.reliable == reliable ==> datagrams(seq![entry], reliable) == seq![entry.data],
        entry.reliable != reliable ==> datagrams(seq![entry], reliable)
            == Seq::<DataEntry>::empty(),
        datagrams(a + b, reliable) == datagrams(a, reliable) + datagrams(b, reliable),
    decreases b.len(),
{
    reveal_with_fuel(datagrams, 2);
    assert(seq![entry].drop_last() =~= Seq::empty());
    assert(seq![entry].last() == entry);
    assert(Seq::<DataEntry>::empty().push(entry.data) =~= seq![entry.data]);
    if b.len() == 0 {
        assert(a + b =~= a);
        assert(datagrams(a, reliable) + datagrams(b, reliable) =~= datagrams(a, reliable));
    } else {
        assert((a + b).drop_last() =~= a + b.drop_last());
        assert((a + b).last() == b.last());
        datagrams_keep_their_order(a, b.drop_last(), entry, reliable);
        assert(datagrams(a + b, reliable) =~= datagrams(a, reliable) + datagrams(b, reliable));
    }
}

/// The bytes of the frames that carry one group of datagrams each.
pub open spec fn frames_size(groups: Seq<Seq<SendEntry>>) -> int
    decreases groups.len(),
{
    if groups.len() == 0 {
        0
    } else {
        6 + waiting_size(groups[0]) + frames_size(groups.drop_first())
    }
}

/// The number of datagrams in all groups.
pub open spec fn datagram_count(groups: Seq<Seq<SendEntry>>) -> int
    decreases groups.len(),
{
    if groups.len() == 0 {
        0
    } else {
        groups[0].len() + datagram_count(groups.drop_first())
    }
}

/// Group `k` fits a frame, the congestion window behind the frames before it, and the transfer
/// window. With the datagram that waits behind it, it would not fit the frame or the congestion
/// window.
pub open spec fn is_full_group(
    groups: Seq<Seq<SendEntry>>,
    k: int,
    queue: TransferQueueView,
    entries: Seq<SendEntry>,
) -> bool {
    let frame_size = 6 + waiting_size(groups[k]);
    let size = queue.size + frames_size(groups.take(k + 1));
    let next = datagram_count(groups.take(k + 1));
    &&& groups[k].len() > 0
    &&& frame_size <= 1472
    &&& size <= queue.window
    &&& queue.next_sequence_id.wrapping_sub(queue.base_sequence_id) + k < 128
    &&& next < entries.len() ==> {
        let more = entries[next].data.bytes@.len();
        frame_size + more > 1472 || size + more > queue.window
    }
}

/// Behind the groups no frame can be sent: no datagram waits, the transfer window is used up, or
/// the next datagram fits no frame, or not the congestion window.
pub open spec fn is_last_group(
    groups: Seq<Seq<SendEntry>>,
    queue: TransferQueueView,
    entries: Seq<SendEntry>,
) -> bool {
    let next = datagram_count(groups);
    &&& next <= entries.len()
    &&& next < entries.len() ==> {
        let more = entries[next].data.bytes@.len();
        ||| queue.next_sequence_id.wrapping_sub(queue.base_sequence_id) + groups.len() >= 128
        ||| 6 + more > 1472
        ||| queue.size + frames_size(groups) + 6 + more > queue.window
    }
}

/// The datagrams that leave are those of the groups: one frame for each, as full as can be, for as
/// long as there is room.
pub open spec fn packs(
    groups: Seq<Seq<SendEntry>>,
    queue: TransferQueueView,
    entries: Seq<SendEntry>,
) -> bool {
    &&& forall|k: int| 0 <= k < groups.len() ==> #[trigger] is_full_group(groups, k, queue, entries)
    &&& is_last_group(groups, queue, entries)
}

/// A group in front of others.
proof fn lemma_packs_first(
    group: Seq<SendEntry>,
    groups: Seq<Seq<SendEntry>>,
    queue: TransferQueueView,
    after: TransferQueueView,
    entries: Seq<SendEntry>,
)
    requires
        0 < group.len() <= entries.len(),
        packs(groups, after, entries.skip(group.len() as int)),
        after.size == queue.size + 6 + waiting_size(group),
        after.window == queue.window,
        after.base_sequence_id == queue.base_sequence_id,
        after.next_sequence_id == queue.next_sequence_id.wrapping_add(1),
        queue.next_sequence_id.wrapping_sub(queue.base_sequence_id) < 128,
        6 + waiting_size(group) <= 1472,
        queue.size + 6 + waiting_size(group) <= queue.window,
        group.len() < entries.len() ==> {
            let more = entries[group.len() as int].data.bytes@.len();
            ||| 6 + waiting_size(group) + more > 1472
            ||| queue.size + 6 + waiting_size(group) + more > queue.window
        },
    ensures
        packs(seq![group] + groups, queue, entries),
        frames_size(seq![group] + groups) == 6 + waiting_size(group) + frames_size(groups),
        datagram_count(seq![group] + groups) == group.len() + datagram_count(groups),
{
    let all = seq![group] + groups;
    let left = entries.skip(group.len() as int);
    assert(all.drop_first() =~= groups);
    assert forall|k: int| 0 <= k < all.len() implies #[trigger] is_full_group(
        all,
        k,
        queue,
        entries,
    ) by {
        let before = groups.take(k);
        let whole = all.take(k + 1);
        assert(whole.drop_first() =~= before);
        assert(whole[0] == group);
        assert(frames_size(whole) == 6 + waiting_size(group) + frames_size(before));
        assert(datagram_count(whole) == group.len() + datagram_count(before));
        lemma_count(before);
        if k == 0 {
            assert(before =~= Seq::empty());
            assert(all[0] == group);
        } else {
            let j: int = k - 1;
            assert(is_full_group(groups, j, after, left));
            assert(all[k] == groups[j]);
            assert(groups.take(j + 1) == before);
            if datagram_count(before) < left.len() {
                assert(left[datagram_count(before)] == entries[datagram_count(whole)]);
            }
        }
    }
    lemma_count(groups);
}

proof fn lemma_count(groups: Seq<Seq<SendEntry>>)
    ensures
        datagram_count(groups) >= 0,
        frames_size(groups) >= 0,
    decreases groups.len(),
{
    if groups.len() > 0 {
        lemma_count(groups.drop_first());
    }
}

/// How the waiting datagrams leave. They go into frames in order, as many into each as fit the
/// frame size limit and the congestion window, for as long as both windows have room. Each frame
/// carries its own group and stays in flight with it, and what is in flight grows by the bytes of
/// the frames. Nothing else changes.
pub proof fn sending_packs_frames_greedily(
    queue: TransferQueueView,
    entries: Seq<SendEntry>,
    now: Instant,
)
    ensures
        exists|groups: Seq<Seq<SendEntry>>| #[trigger]
            packs(groups, queue, entries) && ({
                let sent = transmit(queue, entries, now);
                &&& carry(sent.frames, queue.next_sequence_id, groups)
                &&& groups.flatten() == entries.take(sent.taken as int)
                &&& sent.taken == datagram_count(groups)
                &&& sent.transfer.entries == queue.entries + group_entries(
                    queue.next_sequence_id,
                    groups,
                    now,
                )
                &&& sent.transfer.size == queue.size + frames_size(groups)
                &&& sent.transfer.window == queue.window
                &&& sent.transfer.base_sequence_id == queue.base_sequence_id
                &&& sent.transfer.next_sequence_id == id_after(
                    queue.next_sequence_id,
                    groups.len() as int,
                )
            }),
    decreases entries.len(),
{
    let n = next_frame_len(queue, entries);
    let sent = transmit(queue, entries, now);
    let first = queue.next_sequence_id;
    lemma_transmit_taken(queue, entries, now);
    frame_is_filled(queue, entries);
    lemma_id_after(first, 0);
    if queue.can_send() && n > 0 {
        lemma_next_frame(queue, entries, now);
        let group = entries.take(n as int);
        let rel_dgs = datagrams(group, true);
        let unrel_dgs = datagrams(group, false);
        let after = queue.after_send(rel_dgs, unrel_dgs, now);
        let left = entries.skip(n as int);
        let rest = transmit(after, left, now);
        sending_packs_frames_greedily(after, left, now);
        let groups = choose|groups: Seq<Seq<SendEntry>>| #[trigger]
            packs(groups, after, left) && ({
                &&& carry(rest.frames, after.next_sequence_id, groups)
                &&& groups.flatten() == left.take(rest.taken as int)
                &&& rest.taken == datagram_count(groups)
                &&& rest.transfer.entries == after.entries + group_entries(
                    after.next_sequence_id,
                    groups,
                    now,
                )
                &&& rest.transfer.size == after.size + frames_size(groups)
                &&& rest.transfer.window == after.window
                &&& rest.transfer.base_sequence_id == after.base_sequence_id
                &&& rest.transfer.next_sequence_id == id_after(
                    after.next_sequence_id,
                    groups.len() as int,
                )
            });
        let frame = combined_frame(first, rel_dgs, unrel_dgs);
        let all = seq![group] + groups;
        lemma_transmit_taken(after, left, now);
        lemma_carry_first(frame, group, rest.frames, first, groups, now);
        lemma_id_after(first, groups.len() as int);
        if n < entries.len() {
            let more = entries.take((n + 1) as int);
            assert(more.drop_last() =~= group);
            assert(more.last() == entries[n as int]);
        }
        lemma_packs_first(group, groups, queue, after, entries);
        assert(group + groups.flatten() =~= entries.take(sent.taken as int));
        assert(sent.transfer.entries =~= queue.entries + group_entries(first, all, now));
        assert(packs(all, queue, entries));
    } else {
        let groups = Seq::<Seq<SendEntry>>::empty();
        assert(groups.flatten() =~= entries.take(0));
        assert(queue.entries + group_entries(first, groups, now) =~= queue.entries);
        assert(carry(sent.frames, first, groups));
        if queue.can_send() && entries.len() > 0 {
            assert(entries.take(1).drop_last() =~= Seq::empty());
            assert(waiting_size(entries.take(1)) == entries[0].data.bytes@.len()) by {
                reveal_with_fuel(waiting_size, 2);
            }
        }
        assert(packs(groups, queue, entries));
    }
}

/// Sending comes to an oversized datagram exactly if the next one that waits fits no frame, though
/// the congestion window has room for it: beside the datagrams of the last frame, or in a frame of
/// its own if it is the first and the transfer window has room too.
pub proof fn oversized_datagram_is_told_by_the_windows(
    queue: TransferQueueView,
    entries: Seq<SendEntry>,
    now: Instant,
)
    ensures
        reaches_oversized(queue, entries, now) <==> ({
            let sent = transmit(queue, entries, now);
            let more = entries[sent.taken as int].data.bytes@.len();
            &&& sent.taken < entries.len()
            &&& more > 1466
            &&& sent.taken == 0 ==> queue.size + 6 + more <= queue.window
                && queue.next_sequence_id.wrapping_sub(queue.base_sequence_id) < 128
            &&& sent.taken > 0 ==> sent.transfer.size + more <= sent.transfer.window
        }),
{
}

/// A datagram that fits a frame of its own is never an oversized one.
pub proof fn fitting_datagrams_are_not_oversized(
    queue: TransferQueueView,
    entries: Seq<SendEntry>,
    now: Instant,
)
    requires
        forall|i: int|
            0 <= i < entries.len() ==> (#[trigger] entries[i]).data.bytes@.len() <= 1466,
    ensures
        !reaches_oversized(queue, entries, now),
{
}

} // verus!
