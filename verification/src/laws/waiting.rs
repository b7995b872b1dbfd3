//! Laws of one end as a whole: the datagrams that wait, and what a flush sends and leaves.
use crate::frame_io::{ack_frames, after_acks, in_recv_window, transmit, FrameIOView};
use crate::laws::receiving::receiving_keeps_acknowledgements;
use crate::laws::wire::{ack_frames_name_every_id, holds_id_at};
use crate::send_queue::{all_fit, SendEntry, SendQueueView};
use crate::time::{Duration, Instant};
use crate::transfer_queue::TransferQueueView;
use vstd::prelude::*;

verus! {

/// What has high priority leaves first, and each level from front to back.
pub proof fn high_priority_leaves_first(queue: SendQueueView, i: int)
    requires
        0 <= i < queue.high.len() + queue.low.len(),
    ensures
        queue.order().len() == queue.high.len() + queue.low.len(),
        queue.order()[i] == if i < queue.high.len() {
            queue.high[i]
        } else {
            queue.low[i - queue.high.len()]
        },
{
}

/// What leaves is what is in front: each level loses its first entries, the low one only once
/// the high one is empty.
pub proof fn front_leaves_first(queue: SendQueueView, n: nat)
    requires
        n <= queue.high.len() + queue.low.len(),
    ensures
        ({
            let left = queue.without_front(n);
            let from_high = if n <= queue.high.len() {
                n as int
            } else {
                queue.high.len() as int
            };
            &&& queue.high == queue.high.take(from_high) + left.high
            &&& queue.low == queue.low.take(n - from_high) + left.low
            &&& left.high.len() > 0 ==> left.low == queue.low
        }),
{
}

/// The unreliable datagrams are dropped from each level, and the reliable ones stay in order.
pub proof fn only_reliable_datagrams_stay(queue: SendQueueView)
    ensures
        queue.reliable_only().high == queue.high.filter(|e: SendEntry| e.reliable),
        queue.reliable_only().low == queue.low.filter(|e: SendEntry| e.reliable),
{
}

/// Datagrams fit exactly if each one has at most 1466 bytes.
pub proof fn datagram_fits_by_its_length(
    entry: SendEntry,
    a: Seq<SendEntry>,
    b: Seq<SendEntry>,
)
    ensures
        all_fit(Seq::empty()),
        all_fit(seq![entry]) <==> entry.data.bytes@.len() <= 1466,
        all_fit(a + b) <==> all_fit(a) && all_fit(b),
{
    assert(seq![entry][0] == entry);
    let both = a + b;
    if all_fit(both) {
        assert forall|i: int| 0 <= i < a.len() implies 6 + (#[trigger] a[i]).data.bytes@.len()
            <= 1472 by {
            assert(both[i] == a[i]);
        }
        assert forall|i: int| 0 <= i < b.len() implies 6 + (#[trigger] b[i]).data.bytes@.len()
            <= 1472 by {
            assert(both[a.len() + i] == b[i]);
        }
    }
}

/// Enqueueing a datagram puts it at the end of its level. The other level, the frames in flight and
/// what concerns the receiver stay as they are.
pub proof fn enqueueing_changes_one_level(
    state: FrameIOView,
    entry: SendEntry,
    high_priority: bool,
)
    ensures
        ({
            let after = state.with_datagram(entry, high_priority);
            &&& high_priority ==> after.send.high == state.send.high.push(entry) && after.send.low
                == state.send.low
            &&& !high_priority ==> after.send.low == state.send.low.push(entry) && after.send.high
                == state.send.high
            &&& after.transfer == state.transfer
            &&& after.acks == state.acks
            &&& after.recv_sequence_id == state.recv_sequence_id
        }),
{
}

/// Acknowledgements count one after another: none does nothing, a single one is an acknowledgement
/// of one frame, and a series may be cut in two.
pub proof fn acknowledgements_count_in_turn(
    queue: TransferQueueView,
    first: Seq<u32>,
    second: Seq<u32>,
    sequence_id: u32,
)
    ensures
        after_acks(queue, Seq::empty()) == queue,
        after_acks(queue, seq![sequence_id]) == queue.after_ack(sequence_id),
        after_acks(queue, first + second) == after_acks(after_acks(queue, first), second),
    decreases second.len(),
{
    reveal_with_fuel(after_acks, 2);
    assert(seq![sequence_id].drop_last() =~= Seq::empty());
    assert(seq![sequence_id].last() == sequence_id);
    if second.len() == 0 {
        assert(first + second =~= first);
    } else {
        assert((first + second).drop_last() =~= first + second.drop_last());
        assert((first + second).last() == second.last());
        acknowledgements_count_in_turn(queue, first, second.drop_last(), sequence_id);
    }
}

/// A flush handles the frames in flight first, and then sends what waits. It leaves no
/// acknowledgement to send, keeps the reliable datagrams that were not sent at their levels, and
/// does not touch what is expected next.
pub proof fn flush_settles_the_state(state: FrameIOView, now: Instant, timeout: Duration)
    ensures
        ({
            let after = state.after_flush(now, timeout);
            let sent = transmit(
                state.transfer.after_flush(now, timeout),
                state.send.high + state.send.low,
                now,
            );
            let taken = sent.taken as int;
            let high = state.send.high;
            let low = state.send.low;
            let reliable = |e: SendEntry| e.reliable;
            &&& after.acks.len() == 0
            &&& after.recv_sequence_id == state.recv_sequence_id
            &&& after.transfer == sent.transfer
            &&& taken <= high.len() ==> after.send.high == high.skip(taken).filter(reliable)
                && after.send.low == low.filter(reliable)
            &&& taken > high.len() ==> after.send.high.len() == 0 && after.send.low == low.skip(
                taken - high.len(),
            ).filter(reliable)
        }),
{
    reveal(Seq::filter);
}

/// A flush sends the acknowledgements, then the frames that are sent again, then new ones, and
/// nothing else.
pub proof fn flush_sends_in_order(state: FrameIOView, now: Instant, timeout: Duration)
    ensures
        ({
            let frames = state.flushed_frames(now, timeout);
            let acks = ack_frames(state.acks);
            let again = state.transfer.resent(now, timeout);
            let new = transmit(
                state.transfer.after_flush(now, timeout),
                state.send.high + state.send.low,
                now,
            ).frames;
            &&& frames.len() == acks.len() + again.len() + new.len()
            &&& frames.take(acks.len() as int) == acks
            &&& frames.subrange(acks.len() as int, (acks.len() + again.len()) as int) == again
            &&& frames.skip((acks.len() + again.len()) as int) == new
        }),
{
    let frames = state.flushed_frames(now, timeout);
    let acks = ack_frames(state.acks);
    let again = state.transfer.resent(now, timeout);
    assert(frames.take(acks.len() as int) =~= acks);
    assert(frames.subrange(acks.len() as int, (acks.len() + again.len()) as int) =~= again);
    assert(frames.skip((acks.len() + again.len()) as int) =~= state.transmission(
        now,
        timeout,
    ).frames);
}

/// An acknowledgement frame names `id`.
pub open spec fn names_id(frame: Seq<u8>, id: u32) -> bool {
    &&& frame.len() > 0
    &&& frame[0] == 1
    &&& exists|i: int| #[trigger] holds_id_at(frame, 1 + 4 * i, id)
}

/// A flush acknowledges every frame that waits for it.
pub proof fn flush_acknowledges_what_waits(
    state: FrameIOView,
    now: Instant,
    timeout: Duration,
    i: int,
)
    requires
        0 <= i < state.acks.len(),
    ensures
        i / 367 < state.flushed_frames(now, timeout).len(),
        holds_id_at(
            state.flushed_frames(now, timeout)[i / 367],
            1 + 4 * (i % 367),
            state.acks[i],
        ),
        names_id(state.flushed_frames(now, timeout)[i / 367], state.acks[i]),
{
    ack_frames_name_every_id(state.acks);
    let f = i / 367;
    let frame = ack_frames(state.acks)[f];
    assert(holds_id_at(frame, 1 + 4 * (i % 367), state.acks[i]));
    assert(state.flushed_frames(now, timeout)[f] == frame);
}

/// A frame that is taken and asks for it is acknowledged by the next flush, whatever other frame
/// comes between.
pub proof fn received_frame_is_acknowledged(
    state: FrameIOView,
    sequence_id: u32,
    other_ack: bool,
    other_id: u32,
    now: Instant,
    timeout: Duration,
)
    requires
        in_recv_window(state.recv_sequence_id, sequence_id),
    ensures
        ({
            let received = state.after_data_frame(true, sequence_id).after_data_frame(
                other_ack,
                other_id,
            );
            exists|f: int|
                0 <= f < received.flushed_frames(now, timeout).len() && #[trigger] names_id(
                    received.flushed_frames(now, timeout)[f],
                    sequence_id,
                )
        }),
{
    let once = state.after_data_frame(true, sequence_id);
    let received = once.after_data_frame(other_ack, other_id);
    receiving_keeps_acknowledgements(state, true, sequence_id);
    receiving_keeps_acknowledgements(once, other_ack, other_id);
    let i = state.acks.len() as int;
    assert(once.acks[i] == sequence_id);
    assert(received.acks.take(once.acks.len() as int)[i] == received.acks[i]);
    flush_acknowledges_what_waits(received, now, timeout, i);
    assert(names_id(received.flushed_frames(now, timeout)[i / 367], sequence_id));
}

} // verus!
