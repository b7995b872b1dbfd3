//! Laws of the bytes: what stands where in a frame.
use crate::frame::{
    data_ack_frame, data_frame, entries_bytes, entries_size, id_bytes, lemma_data_ack_frame_len,
    lemma_data_frame_len, lemma_entries_size_add, DataEntry, Frame,
};
use crate::frame_io::ack_frames;
use crate::laws::receiving::{ack_frames_hold_ids_in_order, holds_ids_from};
use crate::outbox::Outbox;
use crate::transfer_entry::sentinel_frame;
use crate::transfer_queue::{combined_frame, reliable_frame};
use vstd::prelude::*;

verus! {

/// The four bytes from the place `at` on stand for `id`, most significant byte first.
pub open spec fn holds_id_at(bytes: Seq<u8>, at: int, id: u32) -> bool {
    &&& 0 <= at
    &&& at + 4 <= bytes.len()
    &&& bytes[at] * 0x100_0000 + bytes[at + 1] * 0x1_0000 + bytes[at + 2] * 0x100 + bytes[at + 3]
        == id
}

/// A sequence id takes four bytes, from which it can be read back.
pub proof fn id_bytes_hold_the_id(id: u32)
    ensures
        id_bytes(id).len() == 4,
        holds_id_at(id_bytes(id), 0, id),
{
}

/// The size of datagrams is the sum of their lengths.
pub proof fn sizes_add_up(a: Seq<DataEntry>, b: Seq<DataEntry>, entry: DataEntry)
    ensures
        entries_size(Seq::empty()) == 0,
        entries_size(seq![entry]) == entry.bytes@.len(),
        entries_size(a + b) == entries_size(a) + entries_size(b),
{
    lemma_entries_size_add(a, b);
    reveal_with_fuel(entries_size, 2);
    assert(seq![entry].drop_last() =~= Seq::empty());
}

/// A data frame, byte for byte: a zero, the flag that asks for an acknowledgement, the sequence id
/// and each datagram behind those before it.
pub open spec fn is_data_frame(
    frame: Seq<u8>,
    ack: bool,
    sequence_id: u32,
    entries: Seq<DataEntry>,
) -> bool {
    &&& frame.len() == 6 + entries_size(entries)
    &&& frame[0] == 0
    &&& frame[1] == if ack { 1int } else { 0int }
    &&& holds_id_at(frame, 2, sequence_id)
    &&& forall|k: int, j: int|
        0 <= k < entries.len() && 0 <= j < entries[k].bytes@.len() ==> frame[6 + entries_size(
            entries.take(k),
        ) + j] == #[trigger] entries[k].bytes@[j]
}

proof fn lemma_datagram_place(entries: Seq<DataEntry>, k: int, j: int)
    requires
        0 <= k < entries.len(),
        0 <= j < entries[k].bytes@.len(),
    ensures
        ({
            let at = entries_size(entries.take(k)) + j;
            at < entries_bytes(entries).len() && entries_bytes(entries)[at] == entries[k].bytes@[j]
        }),
    decreases entries.len(),
{
    let init = entries.drop_last();
    lemma_data_frame_len(true, 0, init);
    if k < init.len() {
        assert(init[k] == entries[k]);
        assert(init.take(k) =~= entries.take(k));
        lemma_datagram_place(init, k, j);
    } else {
        assert(entries.take(k) =~= init);
    }
}

/// A data frame holds its contents: the flag, the id and the very bytes of each datagram.
pub proof fn data_frame_holds_its_contents(
    ack: bool,
    sequence_id: u32,
    entries: Seq<DataEntry>,
)
    ensures
        is_data_frame(data_frame(ack, sequence_id, entries), ack, sequence_id, entries),
{
    let frame = data_frame(ack, sequence_id, entries);
    lemma_data_frame_len(ack, sequence_id, entries);
    id_bytes_hold_the_id(sequence_id);
    assert(frame[2] == id_bytes(sequence_id)[0] && frame[3] == id_bytes(sequence_id)[1] && frame[4]
        == id_bytes(sequence_id)[2] && frame[5] == id_bytes(sequence_id)[3]);
    assert forall|k: int, j: int|
        0 <= k < entries.len() && 0 <= j < entries[k].bytes@.len() implies frame[6 + entries_size(
        entries.take(k),
    ) + j] == #[trigger] entries[k].bytes@[j] by {
        lemma_datagram_place(entries, k, j);
    }
}

proof fn lemma_place_of_byte(entries: Seq<DataEntry>, at: int) -> (place: (int, int))
    requires
        0 <= at < entries_size(entries),
    ensures
        0 <= place.0 < entries.len(),
        0 <= place.1 < entries[place.0].bytes@.len(),
        at == entries_size(entries.take(place.0)) + place.1,
    decreases entries.len(),
{
    let init = entries.drop_last();
    if at < entries_size(init) {
        let place = lemma_place_of_byte(init, at);
        assert(init.take(place.0) =~= entries.take(place.0));
        place
    } else {
        assert(entries.take(init.len() as int) =~= init);
        (init.len() as int, at - entries_size(init))
    }
}

/// The contents of a data frame leave no byte open: two frames that hold the same are the same.
/// From the bytes, the flag and the sequence id can be read back.
pub proof fn contents_determine_data_frame(
    a: Seq<u8>,
    b: Seq<u8>,
    ack: bool,
    other_ack: bool,
    sequence_id: u32,
    other_id: u32,
    entries: Seq<DataEntry>,
    other_entries: Seq<DataEntry>,
)
    requires
        is_data_frame(a, ack, sequence_id, entries),
        is_data_frame(b, other_ack, other_id, other_entries),
    ensures
        ack == other_ack && sequence_id == other_id && entries == other_entries ==> a == b,
        a == b ==> ack == other_ack && sequence_id == other_id && entries_size(entries)
            == entries_size(other_entries),
{
    if ack == other_ack && sequence_id == other_id && entries == other_entries {
        assert forall|i: int| 0 <= i < a.len() implies a[i] == b[i] by {
            if i >= 6 {
                let place = lemma_place_of_byte(entries, i - 6);
                let byte = entries[place.0].bytes@[place.1];
                assert(a[i] == byte && b[i] == byte);
            } else if i >= 2 {
                assert(a[2] == b[2] && a[3] == b[3] && a[4] == b[4] && a[5] == b[5]);
            }
        }
        assert(a =~= b);
    }
}

/// A frame that is sent holds the reliable datagrams, then the others, and asks for an
/// acknowledgement exactly if it has reliable ones. What is sent again holds the reliable ones
/// alone and asks for an acknowledgement, and so does an empty frame.
pub proof fn sent_frames_hold_their_datagrams(
    sequence_id: u32,
    rel_dgs: Seq<DataEntry>,
    unrel_dgs: Seq<DataEntry>,
)
    ensures
        is_data_frame(
            combined_frame(sequence_id, rel_dgs, unrel_dgs),
            rel_dgs.len() > 0,
            sequence_id,
            rel_dgs + unrel_dgs,
        ),
        reliable_frame(sequence_id, rel_dgs) is Some <==> rel_dgs.len() > 0,
        reliable_frame(sequence_id, rel_dgs) matches Some(frame) ==> is_data_frame(
            frame,
            true,
            sequence_id,
            rel_dgs,
        ),
        is_data_frame(sentinel_frame(sequence_id), true, sequence_id, Seq::empty()),
{
    data_frame_holds_its_contents(rel_dgs.len() > 0, sequence_id, rel_dgs + unrel_dgs);
    data_frame_holds_its_contents(true, sequence_id, rel_dgs);
    data_frame_holds_its_contents(true, sequence_id, Seq::empty());
}

/// An acknowledgement frame, byte for byte: a one, and four bytes for each id, in order.
pub open spec fn is_ack_frame(frame: Seq<u8>, ids: Seq<u32>) -> bool {
    &&& frame.len() == 1 + 4 * ids.len()
    &&& frame[0] == 1
    &&& forall|i: int| 0 <= i < ids.len() ==> holds_id_at(frame, 1 + 4 * i, #[trigger] ids[i])
}

proof fn lemma_id_place(ids: Seq<u32>, i: int)
    requires
        0 <= i < ids.len(),
    ensures
        holds_id_at(data_ack_frame(ids), 1 + 4 * i, ids[i]),
    decreases ids.len(),
{
    let init = ids.drop_last();
    let frame = data_ack_frame(ids);
    let before = data_ack_frame(init);
    lemma_data_ack_frame_len(ids);
    lemma_data_ack_frame_len(init);
    let at = 1 + 4 * i;
    if i < init.len() {
        lemma_id_place(init, i);
        assert(frame[at] == before[at] && frame[at + 1] == before[at + 1] && frame[at + 2]
            == before[at + 2] && frame[at + 3] == before[at + 3]);
    } else {
        let last = id_bytes(ids.last());
        id_bytes_hold_the_id(ids.last());
        assert(frame[at] == last[0] && frame[at + 1] == last[1] && frame[at + 2] == last[2]
            && frame[at + 3] == last[3]);
    }
}

/// An acknowledgement frame holds the acknowledged ids, in order.
pub proof fn ack_frame_holds_its_ids(ids: Seq<u32>)
    ensures
        is_ack_frame(data_ack_frame(ids), ids),
{
    lemma_data_ack_frame_len(ids);
    assert forall|i: int| 0 <= i < ids.len() implies holds_id_at(
        data_ack_frame(ids),
        1 + 4 * i,
        #[trigger] ids[i],
    ) by {
        lemma_id_place(ids, i);
    }
}

/// The bytes of a frame are those of its kind, with its own contents.
pub proof fn encoding_holds_the_frame(frame: Frame)
    ensures
        match frame {
            Frame::Data(data) => is_data_frame(
                frame.encoding(),
                data.ack,
                data.sequence_id,
                data.entries@,
            ),
            Frame::DataAck(data_ack) => is_ack_frame(frame.encoding(), data_ack.sequence_ids@),
        },
{
    match frame {
        Frame::Data(data) => {
            data_frame_holds_its_contents(data.ack, data.sequence_id, data.entries@);
        },
        Frame::DataAck(data_ack) => {
            ack_frame_holds_its_ids(data_ack.sequence_ids@);
        },
    }
}

/// The acknowledgement frames name every id at its own place: 367 ids to a frame, each frame full
/// but for the last one, and no frame beyond what the ids need.
pub proof fn ack_frames_name_every_id(ids: Seq<u32>)
    ensures
        ack_frames(ids).len() * 367 < ids.len() + 367,
        forall|i: int|
            0 <= i < ids.len() ==> i / 367 < ack_frames(ids).len() && holds_id_at(
                ack_frames(ids)[i / 367],
                1 + 4 * (i % 367),
                #[trigger] ids[i],
            ),
        forall|f: int|
            0 <= f < ack_frames(ids).len() ==> {
                let frame = #[trigger] ack_frames(ids)[f];
                let left = ids.len() - 367 * f;
                &&& frame[0] == 1
                &&& frame.len() == 1 + 4 * (if left < 367 { left } else { 367 })
            },
{
    ack_frames_hold_ids_in_order(ids);
    let frames = ack_frames(ids);
    assert forall|i: int| 0 <= i < ids.len() implies i / 367 < frames.len() && holds_id_at(
        frames[i / 367],
        1 + 4 * (i % 367),
        #[trigger] ids[i],
    ) by {
        let f = i / 367;
        let from = f * 367;
        let to = if from + 367 <= ids.len() {
            from + 367
        } else {
            ids.len() as int
        };
        assert(holds_ids_from(frames[f], ids, from));
        let held = ids.subrange(from, to);
        ack_frame_holds_its_ids(held);
        assert(held[i - from] == ids[i]);
    }
    assert forall|f: int| 0 <= f < frames.len() implies {
        let frame = #[trigger] frames[f];
        let left = ids.len() - 367 * f;
        &&& frame[0] == 1
        &&& frame.len() == 1 + 4 * (if left < 367 { left } else { 367 })
    } by {
        let from = f * 367;
        let to = if from + 367 <= ids.len() {
            from + 367
        } else {
            ids.len() as int
        };
        assert(holds_ids_from(frames[f], ids, from));
        ack_frame_holds_its_ids(ids.subrange(from, to));
    }
}

/// An outbox holds the bytes of its frames, in order.
pub proof fn outbox_holds_its_frames(outbox: Outbox)
    ensures
        outbox@.len() == outbox.frames@.len(),
        forall|i: int| 0 <= i < outbox@.len() ==> #[trigger] outbox@[i] == outbox.frames@[i]@,
{
}

} // verus!
