//! Laws of a flush of the frames in flight: which frames are lost, what is sent again, and what
//! that does to the congestion window.
use crate::congestion_window::{window_after_nack, window_in_bounds};
use crate::laws::entry::{
    congestion_window_grows_and_halves, is_due, is_halved, is_left_of,
    loss_leaves_what_is_sent_again, timeout_depends_on_time_alone,
};
use crate::time::{Duration, Instant};
use crate::transfer_entry::TransferEntryView;
use crate::transfer_queue::{
    flush_entries, ids_ascend, lemma_flush_entries, total_size, TransferQueueView,
};
use vstd::prelude::*;

verus! {

/// What becomes of one entry in a flush: what is left of it in flight and whether that is sent
/// again, and then the congestion window, and the bytes that the entries so far take of it.
pub struct Outcome {
    pub left: Option<TransferEntryView>,
    pub sent_again: bool,
    pub window: int,
    pub used: int,
}

/// The bytes of an entry.
pub open spec fn bytes_of(entry: TransferEntryView) -> int {
    entry.unreliable_size + match entry.resend_frame {
        Some(frame) => frame.len() as int,
        None => 0,
    }
}

/// `outcome` is right for `entry` when `used` bytes of the congestion window are taken. An entry
/// that does not fit beside them stays as it is and takes nothing; one that is not due stays as
/// it is. One that is due is lost: the window is halved, and only what is left of the entry is
/// sent again and takes of the window.
pub open spec fn is_outcome(
    outcome: Outcome,
    entry: TransferEntryView,
    window: int,
    used: int,
    now: Instant,
    timeout: Duration,
) -> bool {
    if used + bytes_of(entry) > window {
        &&& outcome.left == Some(entry)
        &&& !outcome.sent_again
        &&& outcome.window == window
        &&& outcome.used == used
    } else if !is_due(entry, now, timeout) {
        &&& outcome.left == Some(entry)
        &&& !outcome.sent_again
        &&& outcome.window == window
        &&& outcome.used == used + bytes_of(entry)
    } else {
        &&& is_halved(window, outcome.window)
        &&& match outcome.left {
            Some(left) => {
                &&& entry.resend_frame is Some || entry.sequence_id % 64 == 63
                &&& is_left_of(left, entry, now)
                &&& outcome.sent_again
                &&& outcome.used == used + bytes_of(left)
            },
            None => {
                &&& entry.resend_frame is None && entry.sequence_id % 64 != 63
                &&& !outcome.sent_again
                &&& outcome.used == used
            },
        }
    }
}

/// The outcomes are right for the entries one after another, from an empty window on.
pub open spec fn are_outcomes(
    outcomes: Seq<Outcome>,
    entries: Seq<TransferEntryView>,
    window: int,
    now: Instant,
    timeout: Duration,
) -> bool {
    &&& outcomes.len() == entries.len()
    &&& forall|i: int|
        #![trigger outcomes[i]]
        0 <= i < outcomes.len() ==> is_outcome(
            outcomes[i],
            entries[i],
            if i == 0 {
                window
            } else {
                outcomes[i - 1].window
            },
            if i == 0 {
                0
            } else {
                outcomes[i - 1].used
            },
            now,
            timeout,
        )
}

/// What the outcomes leave in flight, in order.
pub open spec fn left_in_flight(outcomes: Seq<Outcome>) -> Seq<TransferEntryView>
    decreases outcomes.len(),
{
    if outcomes.len() == 0 {
        Seq::empty()
    } else {
        let before = left_in_flight(outcomes.drop_last());
        match outcomes.last().left {
            Some(left) => before.push(left),
            None => before,
        }
    }
}

/// The frames that the outcomes send again, in order.
pub open spec fn frames_sent_again(outcomes: Seq<Outcome>) -> Seq<Seq<u8>>
    decreases outcomes.len(),
{
    if outcomes.len() == 0 {
        Seq::empty()
    } else {
        let before = frames_sent_again(outcomes.drop_last());
        if outcomes.last().sent_again {
            before.push(outcomes.last().left->0.resend_frame->0)
        } else {
            before
        }
    }
}

/// The congestion window behind the last outcome.
pub open spec fn window_at_end(outcomes: Seq<Outcome>, window: int) -> int {
    if outcomes.len() == 0 {
        window
    } else {
        outcomes.last().window
    }
}

proof fn lemma_outcomes(
    entries: Seq<TransferEntryView>,
    window: nat,
    now: Instant,
    timeout: Duration,
) -> (outcomes: Seq<Outcome>)
    ensures
        ({
            let state = flush_entries(entries, window, now, timeout);
            &&& are_outcomes(outcomes, entries, window as int, now, timeout)
            &&& state.entries == left_in_flight(outcomes)
            &&& state.sent == frames_sent_again(outcomes)
            &&& state.window == window_at_end(outcomes, window as int)
            &&& state.cumulative_size == if outcomes.len() == 0 {
                0
            } else {
                outcomes.last().used
            }
        }),
    decreases entries.len(),
{
    if entries.len() == 0 {
        Seq::empty()
    } else {
        let init = entries.drop_last();
        let entry = entries.last();
        let before = lemma_outcomes(init, window, now, timeout);
        let state = flush_entries(init, window, now, timeout);
        let after = flush_entries(entries, window, now, timeout);
        timeout_depends_on_time_alone(entry, entry, now, timeout);
        loss_leaves_what_is_sent_again(entry, now);
        congestion_window_grows_and_halves(state.window);
        let fits = state.cumulative_size + entry.size() <= state.window;
        let lost = fits && entry.timed_out(now, timeout);
        let left = if lost {
            entry.after_timeout(now)
        } else {
            Some(entry)
        };
        let outcome = Outcome {
            left,
            sent_again: lost && left is Some,
            window: after.window as int,
            used: after.cumulative_size as int,
        };
        let outcomes = before.push(outcome);
        assert(outcomes.drop_last() =~= before);
        assert forall|i: int| #![trigger outcomes[i]] 0 <= i < outcomes.len() implies is_outcome(
            outcomes[i],
            entries[i],
            if i == 0 {
                window as int
            } else {
                outcomes[i - 1].window
            },
            if i == 0 {
                0
            } else {
                outcomes[i - 1].used
            },
            now,
            timeout,
        ) by {
            if i < before.len() {
                assert(outcomes[i] == before[i]);
                assert(entries[i] == init[i]);
                if i > 0 {
                    assert(outcomes[i - 1] == before[i - 1]);
                }
            } else {
                assert(entries[i] == entry);
            }
        }
        outcomes
    }
}

/// The course of a flush. Each entry in turn, from the oldest on, is left alone if it does not fit
/// the congestion window beside those before it, or if it is not due. Each one that is due halves
/// the window, whatever it holds; its unreliable bytes are given up and its reliable ones sent
/// again. The ids that the windows lie between stay.
pub proof fn flush_handles_each_frame_in_turn(
    queue: TransferQueueView,
    now: Instant,
    timeout: Duration,
)
    ensures
        exists|outcomes: Seq<Outcome>| #[trigger]
            are_outcomes(outcomes, queue.entries, queue.window as int, now, timeout)
                && queue.after_flush(now, timeout).entries == left_in_flight(outcomes)
                && queue.resent(now, timeout) == frames_sent_again(outcomes)
                && queue.after_flush(now, timeout).window == window_at_end(
                outcomes,
                queue.window as int,
            ),
        queue.after_flush(now, timeout).size == total_size(
            queue.after_flush(now, timeout).entries,
        ),
        queue.after_flush(now, timeout).base_sequence_id == queue.base_sequence_id,
        queue.after_flush(now, timeout).next_sequence_id == queue.next_sequence_id,
{
    let outcomes = lemma_outcomes(queue.entries, queue.window, now, timeout);
    assert(are_outcomes(outcomes, queue.entries, queue.window as int, now, timeout));
}

proof fn lemma_loss_shrinks_window(
    entries: Seq<TransferEntryView>,
    window: nat,
    now: Instant,
    timeout: Duration,
    i: int,
)
    requires
        window_in_bounds(window),
        0 <= i < entries.len(),
        entries[i].timed_out(now, timeout),
        ({
            let before = flush_entries(entries.take(i), window, now, timeout);
            before.cumulative_size + entries[i].size() <= before.window
        }),
    ensures
        ({
            let before = flush_entries(entries.take(i), window, now, timeout);
            let after = flush_entries(entries, window, now, timeout);
            &&& window_in_bounds(before.window)
            &&& before.window <= window
            &&& window_in_bounds(after.window)
            &&& after.window <= window_after_nack(before.window)
        }),
    decreases entries.len(),
{
    let init = entries.drop_last();
    if i < init.len() {
        assert(init.take(i) =~= entries.take(i));
        lemma_loss_shrinks_window(init, window, now, timeout, i);
    } else {
        assert(entries.take(i) =~= init);
        lemma_window_does_not_grow(init, window, now, timeout);
    }
}

proof fn lemma_window_does_not_grow(
    entries: Seq<TransferEntryView>,
    window: nat,
    now: Instant,
    timeout: Duration,
)
    requires
        window_in_bounds(window),
    ensures
        window_in_bounds(flush_entries(entries, window, now, timeout).window),
        flush_entries(entries, window, now, timeout).window <= window,
    decreases entries.len(),
{
    if entries.len() > 0 {
        lemma_window_does_not_grow(entries.drop_last(), window, now, timeout);
    }
}

/// The loss of the oldest frame halves the congestion window at least, whether or not anything
/// of that frame stays in flight.
pub proof fn loss_of_oldest_frame_halves_window(
    queue: TransferQueueView,
    now: Instant,
    timeout: Duration,
)
    requires
        queue.wf(),
        queue.entries.len() > 0,
        bytes_of(queue.entries[0]) <= queue.window,
        is_due(queue.entries[0], now, timeout),
    ensures
        ({
            let after = queue.after_flush(now, timeout).window;
            after == 1472 || after * 2 <= queue.window + 1
        }),
{
    timeout_depends_on_time_alone(queue.entries[0], queue.entries[0], now, timeout);
    assert(queue.entries.take(0) =~= Seq::empty());
    lemma_loss_shrinks_window(queue.entries, queue.window, now, timeout, 0);
}

/// The loss of any frame that lies within the first 1472 bytes in flight halves the congestion
/// window at least, for the smallest window reaches that far.
pub proof fn loss_of_old_frame_halves_window(
    queue: TransferQueueView,
    now: Instant,
    timeout: Duration,
    i: int,
)
    requires
        queue.wf(),
        queue.entries_wf(),
        0 <= i < queue.entries.len(),
        total_size(queue.entries.take(i)) + bytes_of(queue.entries[i]) <= 1472,
        is_due(queue.entries[i], now, timeout),
    ensures
        ({
            let after = queue.after_flush(now, timeout).window;
            after == 1472 || after * 2 <= queue.window + 1
        }),
{
    let prefix = queue.entries.take(i);
    assert forall|k: int| 0 <= k < prefix.len() implies #[trigger] prefix[k].wf() by {
        assert(queue.entries[k].wf());
    }
    assert(ids_ascend(prefix, queue.base_sequence_id)) by {
        assert forall|k: int, l: int|
            #![trigger prefix[k], prefix[l]]
            0 <= k < l < prefix.len() implies prefix[k].sequence_id.wrapping_sub(
            queue.base_sequence_id,
        ) < prefix[l].sequence_id.wrapping_sub(queue.base_sequence_id) by {
            assert(queue.entries[k] == prefix[k] && queue.entries[l] == prefix[l]);
        }
    }
    lemma_flush_entries(prefix, queue.window, now, timeout, queue.base_sequence_id);
    timeout_depends_on_time_alone(queue.entries[i], queue.entries[i], now, timeout);
    lemma_loss_shrinks_window(queue.entries, queue.window, now, timeout, i);
}

} // verus!
