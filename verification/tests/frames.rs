use frameio::frame::{Data, DataAck, DataEntry, Frame};
use frameio::outbox::Outbox;
use frameio::time::{Duration, Instant};

#[test]
fn data_frame_bytes() {
    let entries = vec![DataEntry::new(vec![7, 8]), DataEntry::new(vec![]), DataEntry::new(vec![9])];
    let data = Data::new(true, 0x01020304, entries);
    assert_eq!(data.to_bytes(), vec![0, 1, 1, 2, 3, 4, 7, 8, 9]);
    assert_eq!(Frame::Data(data).to_bytes(), vec![0, 1, 1, 2, 3, 4, 7, 8, 9]);
}

#[test]
fn data_frame_without_ack_and_datagrams() {
    let bytes = Data::new(false, u32::MAX, vec![]).to_bytes();
    assert_eq!(bytes, vec![0, 0, 255, 255, 255, 255]);
    assert_eq!(bytes.len(), Data::HEADER_SIZE_BYTES);
}

#[test]
fn data_ack_frame_bytes() {
    let ack = DataAck { sequence_ids: vec![1, 0xa0b0c0d0] };
    assert_eq!(ack.to_bytes(), vec![1, 0, 0, 0, 1, 0xa0, 0xb0, 0xc0, 0xd0]);
    assert_eq!(Frame::DataAck(ack).to_bytes().len(), 1 + 2 * DataAck::SEQUENCE_ID_SIZE_BYTES);
}

#[test]
fn encoded_size_counts_bytes() {
    assert_eq!(DataEntry::new(vec![1, 2, 3]).encoded_size(), 3);
    assert_eq!(DataEntry::new(vec![]).encoded_size(), 0);
}

#[test]
fn outbox_keeps_frames_in_order() {
    let mut outbox = Outbox::new();
    outbox.send(&[1, 2]);
    outbox.send(&[]);
    outbox.send(&[3]);
    assert_eq!(outbox.frames, vec![vec![1, 2], vec![], vec![3]]);
}

#[test]
fn time_spans() {
    let early = Instant::from_nanos(10);
    let late = Instant::from_nanos(25);
    assert_eq!(late.nanos_since(early), 15);
    assert_eq!(early.nanos_since(late), 0);
    assert_eq!(Duration::new(2, 5).nanos_times(3), 6_000_000_015);
    assert_eq!(Duration::new(2, 5).nanos_times(0), 0);
    assert_eq!(
        Duration::new(u64::MAX, 999_999_999).nanos_times(10),
        (u64::MAX as u128 * 1_000_000_000 + 999_999_999) * 10
    );
}
