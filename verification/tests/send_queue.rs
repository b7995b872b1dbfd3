use frameio::frame::DataEntry;
use frameio::send_queue::{SendEntry, SendQueue};

fn entry(byte: u8, reliable: bool) -> SendEntry {
    SendEntry::new(DataEntry::new(vec![byte]), reliable)
}

fn drain(queue: &mut SendQueue) -> Vec<u8> {
    let mut bytes = Vec::new();
    while let Some(entry) = queue.pop_front() {
        bytes.push(entry.data.bytes[0]);
    }
    bytes
}

#[test]
fn empty_queue() {
    let mut queue = SendQueue::new();
    assert!(queue.is_empty());
    assert!(queue.front().is_none());
    assert!(queue.pop_front().is_none());
    assert!(queue.datagrams_fit());
}

#[test]
fn high_priority_leaves_first() {
    let mut queue = SendQueue::new();
    queue.push_low_priority(entry(1, true));
    queue.push_high_priority(entry(2, true));
    queue.push_low_priority(entry(3, false));
    queue.push_high_priority(entry(4, false));
    assert!(!queue.is_empty());
    assert_eq!(queue.front().unwrap().data.bytes, vec![2]);
    assert_eq!(drain(&mut queue), vec![2, 4, 1, 3]);
    assert!(queue.is_empty());
}

#[test]
fn low_priority_alone() {
    let mut queue = SendQueue::new();
    queue.push_low_priority(entry(1, true));
    assert!(!queue.is_empty());
    assert_eq!(queue.front().unwrap().data.bytes, vec![1]);
    let taken = queue.pop_front().unwrap();
    assert!(taken.reliable);
    assert!(queue.is_empty());
}

#[test]
fn retain_keeps_order_in_both_levels() {
    let mut queue = SendQueue::new();
    for byte in 0..6 {
        queue.push_high_priority(entry(byte, byte % 2 == 0));
        queue.push_low_priority(entry(10 + byte, byte % 3 == 0));
    }
    queue.retain(|e| e.reliable);
    assert_eq!(drain(&mut queue), vec![0, 2, 4, 10, 13]);
}

#[test]
fn retain_all_or_nothing() {
    let mut queue = SendQueue::new();
    queue.push_high_priority(entry(1, true));
    queue.push_low_priority(entry(2, true));
    queue.retain(|_| true);
    assert_eq!(queue.front().unwrap().data.bytes, vec![1]);
    queue.retain(|_| false);
    assert!(queue.is_empty());
}

#[test]
fn fit_is_a_frame_without_its_header() {
    let mut queue = SendQueue::new();
    queue.push_low_priority(SendEntry::new(DataEntry::new(vec![0; 1466]), true));
    assert!(queue.datagrams_fit());
    queue.push_low_priority(SendEntry::new(DataEntry::new(vec![0; 1467]), true));
    assert!(!queue.datagrams_fit());
}
