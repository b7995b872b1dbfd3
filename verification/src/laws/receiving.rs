//! Laws of receiving: which frames are taken, and how they are acknowledged.
use crate::frame::{data_ack_frame, lemma_data_ack_frame_len};
use crate::frame_io::{
    ack_frames, after_acks, in_recv_window, is_newer, FrameIOView, MAX_ACK_IDS,
};
use crate::laws::flight::acknowledged_frames_leave;
use crate::transfer_entry::TRANSFER_WINDOW_SIZE;
use crate::transfer_queue::TransferQueueView;
use crate::MTU;
use vstd::prelude::*;

verus! {

/// The receive window covers the transfer window of the other end: while the id that is expected
/// next lies in that window, every frame in flight is taken.
pub proof fn receive_window_covers_transfer_window(
    queue: TransferQueueView,
    expected: u32,
    sequence_id: u32,
)
    requires
        queue.wf(),
        queue.in_flight(sequence_id),
        expected.wrapping_sub(queue.base_sequence_id) <= queue.next_sequence_id.wrapping_sub(
            queue.base_sequence_id,
        ),
    ensures
        in_recv_window(expected, sequence_id),
{
    let i = queue.position(sequence_id);
    assert(queue.entries[i].sequence_id == sequence_id);
}

/// The id that is expected next only moves forward, and by at most a transfer window at a time.
pub proof fn expected_id_moves_forward(state: FrameIOView, ack: bool, sequence_id: u32)
    ensures
        state.after_data_frame(ack, sequence_id).recv_sequence_id.wrapping_sub(
            state.recv_sequence_id,
        ) <= TRANSFER_WINDOW_SIZE,
{
}

/// How far `sequence_id` is ahead of `expected`, around the circle of ids.
pub open spec fn ahead(expected: u32, sequence_id: u32) -> int {
    (sequence_id - expected) % 0x1_0000_0000
}

/// A frame is taken if its id is less than 128 ahead of the expected one, or at most 128 behind it.
/// It is newer if it is the expected one or ahead of it.
pub proof fn receive_window_lies_around_expected_id(expected: u32, sequence_id: u32)
    ensures
        in_recv_window(expected, sequence_id) <==> ahead(expected, sequence_id) < 128 || ahead(
            expected,
            sequence_id,
        ) >= 0x1_0000_0000 - 128,
        is_newer(expected, sequence_id) <==> ahead(expected, sequence_id) < 128,
{
}

/// Receiving a data frame never removes an acknowledgement that waits: those that waited stay in
/// front, in order. A frame that asks for none adds none, and one that asks for it and is taken
/// adds its own id.
pub proof fn receiving_keeps_acknowledgements(state: FrameIOView, ack: bool, sequence_id: u32)
    ensures
        ({
            let after = state.after_data_frame(ack, sequence_id);
            &&& after.acks.len() >= state.acks.len()
            &&& after.acks.take(state.acks.len() as int) == state.acks
            &&& !ack ==> after.acks == state.acks
            &&& ack && in_recv_window(state.recv_sequence_id, sequence_id) ==> after.acks
                == state.acks + seq![sequence_id]
        }),
{
    let after = state.after_data_frame(ack, sequence_id);
    assert(after.acks.take(state.acks.len() as int) =~= state.acks);
    assert(state.acks.push(sequence_id) =~= state.acks + seq![sequence_id]);
}

/// What a data frame changes at the receiver, by its distance from the expected id. One that is
/// taken is acknowledged if it asks for it, and one that is ahead makes the id behind it the
/// expected one. One that is not taken changes nothing. What is sent is not concerned.
pub proof fn received_frame_moves_expected_id(state: FrameIOView, ack: bool, sequence_id: u32)
    ensures
        ({
            let after = state.after_data_frame(ack, sequence_id);
            let distance = ahead(state.recv_sequence_id, sequence_id);
            &&& after.send == state.send
            &&& after.transfer == state.transfer
            &&& if distance < 128 {
                after.recv_sequence_id == (sequence_id + 1) % 0x1_0000_0000
            } else {
                after.recv_sequence_id == state.recv_sequence_id
            }
            &&& if distance < 128 || distance >= 0x1_0000_0000 - 128 {
                after.acks.len() == state.acks.len() + if ack { 1int } else { 0int }
            } else {
                after.acks == state.acks
            }
        }),
{
}

/// A frame that was taken is taken again if it comes again, and acknowledged again if it asks
/// for it. It no longer moves the receive window.
pub proof fn repeated_frame_is_taken_again(state: FrameIOView, ack: bool, sequence_id: u32)
    requires
        in_recv_window(state.recv_sequence_id, sequence_id),
    ensures
        ({
            let once = state.after_data_frame(ack, sequence_id);
            let twice = once.after_data_frame(ack, sequence_id);
            &&& in_recv_window(once.recv_sequence_id, sequence_id)
            &&& twice.recv_sequence_id == once.recv_sequence_id
            &&& ack ==> twice.acks == once.acks.push(sequence_id)
            &&& !ack ==> twice == once
        }),
{
}

/// The frame acknowledges `ids` from the place `from` on, as many of them as fit, and does not
/// exceed the frame size limit.
pub open spec fn holds_ids_from(frame: Seq<u8>, ids: Seq<u32>, from: int) -> bool {
    let to = if from + MAX_ACK_IDS <= ids.len() {
        from + MAX_ACK_IDS
    } else {
        ids.len() as int
    };
    &&& 0 <= from < to <= ids.len()
    &&& frame == data_ack_frame(ids.subrange(from, to))
    &&& frame.len() <= MTU
}

/// The acknowledgement frames hold the ids in order, as many in each as fit, and none exceeds
/// the frame size limit.
pub proof fn ack_frames_hold_ids_in_order(ids: Seq<u32>)
    ensures
        ack_frames(ids).len() == (ids.len() + MAX_ACK_IDS - 1) / (MAX_ACK_IDS as int),
        forall|i: int|
            0 <= i < ack_frames(ids).len() ==> holds_ids_from(
                #[trigger] ack_frames(ids)[i],
                ids,
                i * MAX_ACK_IDS,
            ),
    decreases ids.len(),
{
    let frames = ack_frames(ids);
    let n = ids.len() as int;
    let m = MAX_ACK_IDS as int;
    if n == 0 {
        assert((n + m - 1) / m == 0) by (nonlinear_arith)
            requires
                n == 0,
                m > 0,
        ;
    } else if n <= m {
        assert((n + m - 1) / m == 1) by (nonlinear_arith)
            requires
                1 <= n <= m,
        ;
        assert(ids.subrange(0, n) =~= ids);
        assert(0 * m == 0);
        lemma_data_ack_frame_len(ids);
    } else {
        let left = ids.skip(m);
        ack_frames_hold_ids_in_order(left);
        assert((n + m - 1) / m == (n - m + m - 1) / m + 1) by (nonlinear_arith)
            requires
                m > 0,
        ;
        lemma_data_ack_frame_len(ids.take(m));
        assert forall|i: int| 0 <= i < frames.len() implies holds_ids_from(
            #[trigger] frames[i],
            ids,
            i * MAX_ACK_IDS,
        ) by {
            if i == 0 {
                assert(i * m == 0) by (nonlinear_arith)
                    requires
                        i == 0,
                ;
                assert(ids.subrange(0, m) =~= ids.take(m));
            } else {
                let from = (i - 1) * m;
                assert(i * m == from + m) by (nonlinear_arith)
                    requires
                        from == (i - 1) * m,
                ;
                assert(frames[i] == ack_frames(left)[i - 1]);
                assert(holds_ids_from(ack_frames(left)[i - 1], left, from));
                let to = if from + m <= left.len() {
                    from + m
                } else {
                    left.len() as int
                };
                assert(left.subrange(from, to) =~= ids.subrange(from + m, to + m));
            }
        }
    }
}

/// A frame that asks for it and is taken is out of flight once the acknowledgements of the
/// receiver have come back.
pub proof fn received_frame_leaves_flight(
    sender: TransferQueueView,
    receiver: FrameIOView,
    sequence_id: u32,
)
    requires
        sender.wf(),
        in_recv_window(receiver.recv_sequence_id, sequence_id),
    ensures
        !after_acks(sender, receiver.after_data_frame(true, sequence_id).acks).in_flight(
            sequence_id,
        ),
{
    let acks = receiver.after_data_frame(true, sequence_id).acks;
    assert(acks[acks.len() - 1] == sequence_id);
    acknowledged_frames_leave(sender, acks);
}

} // verus!
