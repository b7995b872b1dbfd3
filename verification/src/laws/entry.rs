//! Laws of one frame in flight and of the two windows: when a frame is due, what its loss leaves,
//! and how the windows move.
use crate::congestion_window::{
    window_after_ack, window_after_nack, window_in_bounds, CongestionWindow,
};
use crate::frame::{entries_size, lemma_data_frame_len, DataEntry};
use crate::laws::wire::{is_data_frame, sent_frames_hold_their_datagrams};
use crate::time::{Duration, Instant};
use crate::transfer_entry::{is_sentinel_id, TransferEntryView};
use crate::transfer_queue::{
    entry_for, lemma_entry_for_size, lemma_total_size_add, lemma_total_size_remove, total_size,
    TransferQueueView,
};
use vstd::prelude::*;

verus! {

/// `entry` was last sent longer ago than `timeout`, times the number of its sends.
pub open spec fn is_due(entry: TransferEntryView, now: Instant, timeout: Duration) -> bool {
    now.nanos - entry.last_send_time.nanos > (timeout.secs * 1_000_000_000 + timeout.nanos)
        * entry.send_count
}

/// Whether a frame in flight is due depends on time alone, not on what it holds: frames that were
/// last sent at the same time, and as often, time out together.
pub proof fn timeout_depends_on_time_alone(
    entry: TransferEntryView,
    other: TransferEntryView,
    now: Instant,
    timeout: Duration,
)
    ensures
        entry.timed_out(now, timeout) <==> is_due(entry, now, timeout),
        entry.last_send_time == other.last_send_time && entry.send_count == other.send_count
            ==> entry.timed_out(now, timeout) == other.timed_out(now, timeout),
{
    let span = timeout.secs * 1_000_000_000 + timeout.nanos;
    let count = entry.send_count;
    assert(span * count >= 0) by (nonlinear_arith)
        requires
            span >= 0,
            count >= 0,
    ;
}

/// A frame that is due stays due as time goes on, and with a shorter timeout.
pub proof fn due_frame_stays_due(
    entry: TransferEntryView,
    now: Instant,
    later: Instant,
    timeout: Duration,
    shorter: Duration,
)
    requires
        entry.timed_out(now, timeout),
        now.nanos <= later.nanos,
        shorter.secs * 1_000_000_000 + shorter.nanos <= timeout.secs * 1_000_000_000
            + timeout.nanos,
    ensures
        entry.timed_out(later, shorter),
{
    let span = timeout.secs * 1_000_000_000 + timeout.nanos;
    let short = shorter.secs * 1_000_000_000 + shorter.nanos;
    let count = entry.send_count;
    assert(0 <= short * count <= span * count) by (nonlinear_arith)
        requires
            0 <= short <= span,
            count >= 0,
    ;
}

/// Between two instants lie as many nanoseconds as their readings are apart, and none if the
/// first one is the later. A span of time counts its seconds and its nanoseconds.
pub proof fn time_counts_nanoseconds(earlier: Instant, later: Instant, span: Duration)
    ensures
        earlier.nanos <= later.nanos ==> earlier.nanos + later.spec_nanos_since(earlier)
            == later.nanos,
        earlier.nanos >= later.nanos ==> later.spec_nanos_since(earlier) == 0,
        span.total_nanos() == span.secs * 1_000_000_000 + span.nanos,
{
}

/// The bytes of an entry are those to send again and the unreliable ones.
pub proof fn entry_counts_its_bytes(entry: TransferEntryView)
    ensures
        entry.resend_frame is None ==> entry.size() == entry.unreliable_size,
        entry.resend_frame matches Some(frame) ==> entry.size() == entry.unreliable_size
            + frame.len(),
{
}

/// The number of sends once there is one more: up to ten, then none again.
pub open spec fn next_count(count: u32) -> int {
    if count < 10 {
        count + 1
    } else {
        0
    }
}

/// Sending an entry once more resets its clock and counts the send. Nothing else changes.
pub proof fn sending_again_counts(entry: TransferEntryView, now: Instant)
    ensures
        ({
            let again = entry.sent_again(now);
            &&& again.last_send_time == now
            &&& again.send_count == next_count(entry.send_count)
            &&& again.resend_frame == entry.resend_frame
            &&& again.unreliable_size == entry.unreliable_size
            &&& again.sequence_id == entry.sequence_id
        }),
{
}

/// Every sixty-fourth sequence id is a sentinel: of the ids from any one on, one of the first
/// sixty-four.
pub proof fn sentinels_are_spaced_evenly(sequence_id: u32)
    ensures
        is_sentinel_id(sequence_id) <==> sequence_id % 64 == 63,
        is_sentinel_id(sequence_id) == is_sentinel_id(sequence_id.wrapping_add(64)),
{
}

/// `left` is what the loss of `entry` at `now` leaves in flight: the same frame to send again, or
/// an empty one in its place, under the same id and without the unreliable bytes.
pub open spec fn is_left_of(
    left: TransferEntryView,
    entry: TransferEntryView,
    now: Instant,
) -> bool {
    &&& left.sequence_id == entry.sequence_id
    &&& left.unreliable_size == 0
    &&& left.last_send_time == now
    &&& match entry.resend_frame {
        Some(frame) => left.resend_frame == Some(frame) && left.send_count == next_count(
            entry.send_count,
        ),
        None => left.resend_frame matches Some(frame) && is_data_frame(
            frame,
            true,
            entry.sequence_id,
            Seq::empty(),
        ) && left.send_count == 2,
    }
}

/// What a loss leaves: nothing, exactly if there is nothing to send again and the id is no
/// sentinel; else the frame to send again, and no unreliable byte.
pub proof fn loss_leaves_what_is_sent_again(entry: TransferEntryView, now: Instant)
    ensures
        entry.after_timeout(now) is None <==> entry.resend_frame is None && entry.sequence_id % 64
            != 63,
        entry.after_timeout(now) matches Some(left) ==> is_left_of(left, entry, now),
{
    sent_frames_hold_their_datagrams(entry.sequence_id, Seq::empty(), Seq::empty());
}

/// A new entry is sent once, at the time that is given, and holds what it is given.
pub proof fn new_entry_is_sent_once(
    resend_frame: Option<Seq<u8>>,
    unreliable_size: nat,
    sequence_id: u32,
    now: Instant,
)
    ensures
        ({
            let entry = TransferEntryView::first_sent(
                resend_frame,
                unreliable_size,
                sequence_id,
                now,
            );
            &&& entry.resend_frame == resend_frame
            &&& entry.unreliable_size == unreliable_size
            &&& entry.sequence_id == sequence_id
            &&& entry.last_send_time == now
            &&& entry.send_count == 1
        }),
{
}

/// The entry for a frame that is sent: the frame with the reliable datagrams alone is to be sent
/// again, and the unreliable ones count on top; without reliable ones the whole frame counts as
/// unreliable.
pub proof fn entry_keeps_reliable_datagrams(
    sequence_id: u32,
    rel_dgs: Seq<DataEntry>,
    unrel_dgs: Seq<DataEntry>,
    now: Instant,
)
    ensures
        ({
            let entry = entry_for(sequence_id, rel_dgs, unrel_dgs, now);
            &&& entry.sequence_id == sequence_id
            &&& entry.last_send_time == now
            &&& entry.send_count == 1
            &&& entry.resend_frame is None <==> rel_dgs.len() == 0
            &&& entry.resend_frame matches Some(frame) ==> is_data_frame(
                frame,
                true,
                sequence_id,
                rel_dgs,
            )
            &&& entry.unreliable_size == entries_size(unrel_dgs) + if rel_dgs.len() > 0 {
                0int
            } else {
                6int
            }
        }),
{
    sent_frames_hold_their_datagrams(sequence_id, rel_dgs, unrel_dgs);
    lemma_entry_for_size(sequence_id, rel_dgs, unrel_dgs, now);
    lemma_data_frame_len(true, sequence_id, rel_dgs);
}

/// `after` is half of `before`, rounded up, but not less than one frame.
pub open spec fn is_halved(before: int, after: int) -> bool {
    &&& after >= 1472
    &&& after * 2 >= before
    &&& after == 1472 || after * 2 <= before + 1
}

/// An acknowledgement makes the congestion window one frame larger, up to a gibibyte. A loss
/// halves it, down to one frame.
pub proof fn congestion_window_grows_and_halves(size: nat)
    ensures
        window_after_ack(size) <= 0x4000_0000,
        window_after_ack(size) == size + 1472 || window_after_ack(size) == 0x4000_0000 < size
            + 1472,
        is_halved(size as int, window_after_nack(size) as int),
        window_in_bounds(size) <==> 1472 <= size <= 0x4000_0000,
        CongestionWindow::MIN_SIZE == 1472,
{
}

/// The bytes in flight are those of the entries together.
pub proof fn bytes_in_flight_add_up(
    a: Seq<TransferEntryView>,
    b: Seq<TransferEntryView>,
    entry: TransferEntryView,
)
    ensures
        total_size(Seq::empty()) == 0,
        total_size(seq![entry]) == entry.unreliable_size + match entry.resend_frame {
            Some(frame) => frame.len() as int,
            None => 0,
        },
        total_size(a + b) == total_size(a) + total_size(b),
{
    lemma_total_size_add(a, b);
    reveal_with_fuel(total_size, 2);
    assert(seq![entry].drop_last() =~= Seq::empty());
}

/// What a queue keeps at all times: it counts the bytes of its entries, and their ids are
/// distinct, in order, and less than a transfer window behind the next one.
pub proof fn ids_in_flight_lie_in_transfer_window(queue: TransferQueueView, i: int, j: int)
    requires
        queue.wf(),
        0 <= i < queue.entries.len(),
        0 <= j < queue.entries.len(),
    ensures
        queue.size == total_size(queue.entries),
        1472 <= queue.window <= 0x4000_0000,
        queue.next_sequence_id.wrapping_sub(queue.base_sequence_id) <= 128,
        1 <= queue.next_sequence_id.wrapping_sub(queue.entries[i].sequence_id) <= 128,
        i < j ==> queue.next_sequence_id.wrapping_sub(queue.entries[j].sequence_id)
            < queue.next_sequence_id.wrapping_sub(queue.entries[i].sequence_id),
        queue.entries[i].sequence_id == queue.entries[j].sequence_id ==> i == j,
{
    let base = queue.base_sequence_id;
    let a = queue.entries[i].sequence_id;
    let b = queue.entries[j].sequence_id;
    assert(a.wrapping_sub(base) < queue.next_sequence_id.wrapping_sub(base));
    assert(b.wrapping_sub(base) < queue.next_sequence_id.wrapping_sub(base));
}

/// A queue is well formed exactly if its congestion window is in bounds, it counts the bytes of its
/// entries, which are not beyond the largest window, the next id is at most a transfer window
/// ahead of the base id, and the ids in flight lie between the two, each ahead of those before
/// it. Nothing else is asked of a queue, and of an entry only that its timeout can be handled.
pub proof fn queue_is_well_formed_by_its_windows(queue: TransferQueueView)
    ensures
        queue.wf() <==> {
            let ahead = |id: u32| id.wrapping_sub(queue.base_sequence_id);
            &&& 1472 <= queue.window <= 0x4000_0000
            &&& queue.size == total_size(queue.entries)
            &&& queue.size <= 0x4000_0000
            &&& ahead(queue.next_sequence_id) <= 128
            &&& forall|i: int|
                0 <= i < queue.entries.len() ==> ahead((#[trigger] queue.entries[i]).sequence_id)
                    < ahead(queue.next_sequence_id)
            &&& forall|i: int, j: int|
                0 <= i < j < queue.entries.len() ==> ahead(
                    (#[trigger] queue.entries[i]).sequence_id,
                ) < ahead((#[trigger] queue.entries[j]).sequence_id)
        },
        queue.entries_wf() <==> forall|i: int|
            0 <= i < queue.entries.len() ==> {
                let entry = #[trigger] queue.entries[i];
                &&& entry.send_count < 0xffff_ffff
                &&& entry.resend_frame is None ==> entry.unreliable_size >= 6
            },
{
    if queue.entries_wf() {
        assert forall|i: int| 0 <= i < queue.entries.len() implies {
            let entry = #[trigger] queue.entries[i];
            &&& entry.send_count < 0xffff_ffff
            &&& entry.resend_frame is None ==> entry.unreliable_size >= 6
        } by {
            assert(queue.entries[i].wf());
        }
    }
}

/// Free space is what the congestion window leaves beside the bytes in flight, all of it. The
/// transfer window has room as long as the next id is less than 128 ahead of the base id.
pub proof fn windows_leave_room(queue: TransferQueueView)
    ensures
        queue.size <= queue.window ==> queue.size + queue.free_space() == queue.window,
        queue.size >= queue.window ==> queue.free_space() == 0,
        queue.can_send() <==> queue.next_sequence_id.wrapping_sub(queue.base_sequence_id) < 128,
{
}

/// A frame is in flight exactly if an entry has its sequence id, and there is its place.
pub proof fn frame_in_flight_has_a_place(queue: TransferQueueView, sequence_id: u32)
    ensures
        queue.in_flight(sequence_id) <==> queue.entries.map_values(
            |entry: TransferEntryView| entry.sequence_id,
        ).contains(sequence_id),
        queue.in_flight(sequence_id) ==> 0 <= queue.position(sequence_id) < queue.entries.len()
            && queue.entries[queue.position(sequence_id)].sequence_id == sequence_id,
{
    let ids = queue.entries.map_values(|entry: TransferEntryView| entry.sequence_id);
    if queue.in_flight(sequence_id) {
        assert(ids[queue.position(sequence_id)] == sequence_id);
    }
    if ids.contains(sequence_id) {
        let i = choose|i: int| 0 <= i < ids.len() && ids[i] == sequence_id;
        assert(queue.entries[i].sequence_id == sequence_id);
    }
}

/// Sending a frame takes the next sequence id and puts one entry behind the others, with the bytes
/// of the frame. The base id and the congestion window stay.
pub proof fn sending_takes_next_id(
    queue: TransferQueueView,
    rel_dgs: Seq<DataEntry>,
    unrel_dgs: Seq<DataEntry>,
    now: Instant,
)
    ensures
        ({
            let after = queue.after_send(rel_dgs, unrel_dgs, now);
            &&& after.entries == queue.entries.push(
                entry_for(queue.next_sequence_id, rel_dgs, unrel_dgs, now),
            )
            &&& after.size == queue.size + 6 + entries_size(rel_dgs) + entries_size(unrel_dgs)
            &&& after.next_sequence_id == (queue.next_sequence_id + 1) % 0x1_0000_0000
            &&& after.base_sequence_id == queue.base_sequence_id
            &&& after.window == queue.window
        }),
{
    lemma_entry_for_size(queue.next_sequence_id, rel_dgs, unrel_dgs, now);
}

/// The acknowledgement of the frame at place `i` takes that one entry out and its bytes, makes
/// the congestion window one frame larger, and moves the base id to the oldest frame that is
/// left, or behind the acknowledged one.
pub proof fn acknowledgement_is_exact(queue: TransferQueueView, i: int)
    requires
        queue.wf(),
        0 <= i < queue.entries.len(),
    ensures
        ({
            let id = queue.entries[i].sequence_id;
            let after = queue.after_ack(id);
            &&& after.entries == queue.entries.take(i) + queue.entries.skip(i + 1)
            &&& after.size == total_size(after.entries)
            &&& after.window == if queue.window + 1472 <= 0x4000_0000 {
                queue.window + 1472
            } else {
                0x4000_0000
            }
            &&& after.next_sequence_id == queue.next_sequence_id
            &&& after.base_sequence_id == if queue.entries.len() == 1 {
                ((id + 1) % 0x1_0000_0000) as u32
            } else if i == 0 {
                queue.entries[1].sequence_id
            } else {
                queue.entries[0].sequence_id
            }
        }),
{
    let id = queue.entries[i].sequence_id;
    assert(queue.in_flight(id));
    let p = queue.position(id);
    assert(queue.entries[p].sequence_id == id);
    ids_in_flight_lie_in_transfer_window(queue, i, p);
    lemma_total_size_remove(queue.entries, i);
    assert(queue.entries.remove(i) =~= queue.entries.take(i) + queue.entries.skip(i + 1));
}

/// An acknowledgement of a sequence id that no entry has changes nothing.
pub proof fn unknown_acknowledgement_changes_nothing(queue: TransferQueueView, sequence_id: u32)
    requires
        forall|i: int|
            0 <= i < queue.entries.len() ==> (#[trigger] queue.entries[i]).sequence_id
                != sequence_id,
    ensures
        queue.after_ack(sequence_id) == queue,
{
}

} // verus!
