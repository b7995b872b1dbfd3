//! The frames that travel between the two ends, and their bytes.
//!
//! A data frame is a tag, the flag that asks for an acknowledgement, the sequence id and the
//! datagrams one after another. An acknowledgement frame is a tag and the acknowledged sequence
//! ids. Integers are written most significant byte first.
use vstd::prelude::*;

verus! {

/// First byte of a data frame.
pub const DATA_TAG: u8 = 0;

/// First byte of an acknowledgement frame.
pub const DATA_ACK_TAG: u8 = 1;

/// A datagram as it stands in a data frame. The transport carries its bytes and never looks
/// inside.
#[derive(Debug)]
pub struct DataEntry {
    pub bytes: Vec<u8>,
}

/// A data frame. The receiver acknowledges it if `ack` is set.
#[derive(Debug)]
pub struct Data {
    pub ack: bool,
    pub sequence_id: u32,
    pub entries: Vec<DataEntry>,
}

/// An acknowledgement of data frames.
#[derive(Debug)]
pub struct DataAck {
    pub sequence_ids: Vec<u32>,
}

#[derive(Debug)]
pub enum Frame {
    Data(Data),
    DataAck(DataAck),
}

/// The four bytes of `x`, most significant first.
pub open spec fn id_bytes(x: u32) -> Seq<u8> {
    seq![
        (x / 0x100_0000) as u8,
        (x / 0x1_0000 % 0x100) as u8,
        (x / 0x100 % 0x100) as u8,
        (x % 0x100) as u8,
    ]
}

/// The bytes of `entries`, one datagram after another.
pub open spec fn entries_bytes(entries: Seq<DataEntry>) -> Seq<u8>
    decreases entries.len(),
{
    if entries.len() == 0 {
        Seq::empty()
    } else {
        entries_bytes(entries.drop_last()) + entries.last().bytes@
    }
}

/// The number of bytes that `entries` take in a frame.
pub open spec fn entries_size(entries: Seq<DataEntry>) -> nat
    decreases entries.len(),
{
    if entries.len() == 0 {
        0
    } else {
        entries_size(entries.drop_last()) + entries.last().bytes@.len()
    }
}

/// The bytes of the data frame with these contents.
pub open spec fn data_frame(ack: bool, sequence_id: u32, entries: Seq<DataEntry>) -> Seq<u8> {
    seq![DATA_TAG, if ack { 1u8 } else { 0u8 }] + id_bytes(sequence_id) + entries_bytes(entries)
}

/// The bytes of `ids`, one id after another.
pub open spec fn ids_bytes(ids: Seq<u32>) -> Seq<u8>
    decreases ids.len(),
{
    if ids.len() == 0 {
        Seq::empty()
    } else {
        ids_bytes(ids.drop_last()) + id_bytes(ids.last())
    }
}

/// The bytes of the frame that acknowledges `ids`.
pub open spec fn data_ack_frame(ids: Seq<u32>) -> Seq<u8> {
    seq![DATA_ACK_TAG] + ids_bytes(ids)
}

/// The length of a data frame is the size of the header and of the datagrams.
pub proof fn lemma_data_frame_len(ack: bool, sequence_id: u32, entries: Seq<DataEntry>)
    ensures
        data_frame(ack, sequence_id, entries).len() == Data::HEADER_SIZE_BYTES + entries_size(
            entries,
        ),
        entries_bytes(entries).len() == entries_size(entries),
    decreases entries.len(),
{
    if entries.len() > 0 {
        lemma_data_frame_len(ack, sequence_id, entries.drop_last());
    }
}

/// The length of an acknowledgement frame is the size of the header and of the ids.
pub proof fn lemma_data_ack_frame_len(ids: Seq<u32>)
    ensures
        data_ack_frame(ids).len() == DataAck::HEADER_SIZE_BYTES + DataAck::SEQUENCE_ID_SIZE_BYTES
            * ids.len(),
    decreases ids.len(),
{
    if ids.len() > 0 {
        lemma_data_ack_frame_len(ids.drop_last());
    }
}

/// Datagrams that follow others in a frame add their size.
pub proof fn lemma_entries_size_add(a: Seq<DataEntry>, b: Seq<DataEntry>)
    ensures
        entries_size(a + b) == entries_size(a) + entries_size(b),
    decreases b.len(),
{
    if b.len() == 0 {
        assert(a + b =~= a);
    } else {
        assert((a + b).drop_last() =~= a + b.drop_last());
        lemma_entries_size_add(a, b.drop_last());
    }
}

/// Appends the four bytes of `x`, most significant first.
fn push_id(bytes: &mut Vec<u8>, x: u32)
    ensures
        final(bytes)@ == old(bytes)@ + id_bytes(x),
{
    bytes.push((x / 0x100_0000) as u8);
    bytes.push((x / 0x1_0000 % 0x100) as u8);
    bytes.push((x / 0x100 % 0x100) as u8);
    bytes.push((x % 0x100) as u8);
    assert(bytes@ =~= old(bytes)@ + id_bytes(x));
}

impl DataEntry {
    pub fn new(bytes: Vec<u8>) -> (entry: Self)
        ensures
            entry.bytes == bytes,
    {
        Self { bytes }
    }

    /// The number of bytes that the datagram takes in a frame.
    pub fn encoded_size(&self) -> (size: usize)
        ensures
            size == self.bytes@.len(),
    {
        self.bytes.len()
    }
}

impl Data {
    /// The bytes of a data frame before its first datagram.
    pub const HEADER_SIZE_BYTES: usize = 6;

    pub fn new(ack: bool, sequence_id: u32, entries: Vec<DataEntry>) -> (data: Self)
        ensures
            data.ack == ack,
            data.sequence_id == sequence_id,
            data.entries == entries,
    {
        Self { ack, sequence_id, entries }
    }

    pub fn to_bytes(&self) -> (bytes: Vec<u8>)
        ensures
            bytes@ == data_frame(self.ack, self.sequence_id, self.entries@),
    {
        let mut bytes: Vec<u8> = Vec::new();
        bytes.push(DATA_TAG);
        bytes.push(if self.ack { 1u8 } else { 0u8 });
        push_id(&mut bytes, self.sequence_id);
        let ghost header = bytes@;
        assert(header =~= seq![DATA_TAG, if self.ack { 1u8 } else { 0u8 }] + id_bytes(
            self.sequence_id,
        ));

        let mut i: usize = 0;
        assert(self.entries@.take(0) =~= Seq::empty());
        while i < self.entries.len()
            invariant
                i <= self.entries@.len(),
                bytes@ == header + entries_bytes(self.entries@.take(i as int)),
            decreases self.entries@.len() - i,
        {
            bytes.extend_from_slice(self.entries[i].bytes.as_slice());
            proof {
                let done = self.entries@.take(i as int);
                let next = self.entries@.take(i + 1);
                assert(next.drop_last() =~= done);
                assert(bytes@ =~= header + entries_bytes(done) + self.entries@[i as int].bytes@);
            }
            i += 1;
        }
        assert(self.entries@.take(i as int) =~= self.entries@);
        bytes
    }
}

impl DataAck {
    /// The bytes of an acknowledgement frame before its first id.
    pub const HEADER_SIZE_BYTES: usize = 1;

    /// The bytes of one acknowledged id.
    pub const SEQUENCE_ID_SIZE_BYTES: usize = 4;

    pub fn to_bytes(&self) -> (bytes: Vec<u8>)
        ensures
            bytes@ == data_ack_frame(self.sequence_ids@),
    {
        let mut bytes: Vec<u8> = Vec::new();
        bytes.push(DATA_ACK_TAG);
        assert(bytes@ =~= seq![DATA_ACK_TAG]);

        let mut i: usize = 0;
        assert(self.sequence_ids@.take(0) =~= Seq::empty());
        while i < self.sequence_ids.len()
            invariant
                i <= self.sequence_ids@.len(),
                bytes@ == seq![DATA_ACK_TAG] + ids_bytes(self.sequence_ids@.take(i as int)),
            decreases self.sequence_ids@.len() - i,
        {
            push_id(&mut bytes, self.sequence_ids[i]);
            proof {
                let done = self.sequence_ids@.take(i as int);
                let next = self.sequence_ids@.take(i + 1);
                assert(next.drop_last() =~= done);
            }
            i += 1;
        }
        assert(self.sequence_ids@.take(i as int) =~= self.sequence_ids@);
        bytes
    }
}

impl Frame {
    /// The bytes of the frame.
    pub open spec fn encoding(self) -> Seq<u8> {
        match self {
            Frame::Data(data) => data_frame(data.ack, data.sequence_id, data.entries@),
            Frame::DataAck(data_ack) => data_ack_frame(data_ack.sequence_ids@),
        }
    }

    pub fn to_bytes(&self) -> (bytes: Vec<u8>)
        ensures
            bytes@ == self.encoding(),
    {
        match self {
            Frame::Data(data) => data.to_bytes(),
            Frame::DataAck(data_ack) => data_ack.to_bytes(),
        }
    }
}

} // verus!
