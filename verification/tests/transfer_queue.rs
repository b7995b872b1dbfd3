use frameio::frame::{Data, DataEntry};
use frameio::outbox::Outbox;
use frameio::time::{Duration, Instant};
use frameio::transfer_entry::TransferEntry;
use frameio::transfer_queue::TransferQueue;

const SECOND: u128 = 1_000_000_000;

fn at(seconds: u128) -> Instant {
    Instant::from_nanos(seconds * SECOND)
}

fn timeout() -> Duration {
    Duration::new(1, 0)
}

fn datagrams(bytes: &[&[u8]]) -> Vec<DataEntry> {
    bytes.iter().map(|b| DataEntry::new(b.to_vec())).collect()
}

fn send(queue: &mut TransferQueue, rel: &[&[u8]], unrel: &[&[u8]], now: Instant) -> Vec<Vec<u8>> {
    let mut outbox = Outbox::new();
    queue.send_frame(datagrams(rel), datagrams(unrel), now, &mut outbox);
    outbox.frames
}

fn flush(queue: &mut TransferQueue, now: Instant) -> Vec<Vec<u8>> {
    let mut outbox = Outbox::new();
    queue.flush(now, timeout(), &mut outbox);
    outbox.frames
}

#[test]
fn entry_sizes() {
    assert_eq!(TransferEntry::new_reliable(vec![0; 10], 3, 1, at(0)).size(), 13);
    assert_eq!(TransferEntry::new_unreliable(8, 1, at(0)).size(), 8);
    assert_eq!(TransferEntry::new_sentinel(1, at(0)).size(), Data::HEADER_SIZE_BYTES);
}

#[test]
fn entry_times_out_later_with_each_send() {
    let mut entry = TransferEntry::new_unreliable(8, 1, at(0));
    assert!(!entry.should_resend(at(1), timeout()));
    assert!(entry.should_resend(Instant::from_nanos(SECOND + 1), timeout()));
    entry.mark_sent(at(2));
    assert!(!entry.should_resend(at(4), timeout()));
    assert!(entry.should_resend(at(5), timeout()));
    assert!(!entry.should_resend(at(1), timeout()));
}

#[test]
fn entry_send_count_starts_over() {
    let mut entry = TransferEntry::new_unreliable(8, 1, at(0));
    for _ in 0..9 {
        entry.mark_sent(at(0));
    }
    assert!(!entry.should_resend(at(10), timeout()));
    assert!(entry.should_resend(at(11), timeout()));
    entry.mark_sent(at(20));
    assert!(!entry.should_resend(at(20), timeout()));
    assert!(entry.should_resend(Instant::from_nanos(20 * SECOND + 1), timeout()));
}

#[test]
fn new_queue() {
    let queue = TransferQueue::new(7);
    assert!(queue.is_empty());
    assert!(queue.can_send());
    assert_eq!(queue.free_space(), 1472);
}

#[test]
fn frame_without_datagrams_is_not_sent() {
    let mut queue = TransferQueue::new(7);
    assert!(send(&mut queue, &[], &[], at(0)).is_empty());
    assert!(queue.is_empty());
    assert_eq!(send(&mut queue, &[b"a"], &[], at(0))[0][5], 7);
}

#[test]
fn reliable_frame() {
    let mut queue = TransferQueue::new(7);
    let frames = send(&mut queue, &[b"ab", b"c"], &[], at(0));
    assert_eq!(frames, vec![vec![0, 1, 0, 0, 0, 7, b'a', b'b', b'c']]);
    assert_eq!(queue.free_space(), 1472 - 9);
    assert!(!queue.is_empty());

    assert!(flush(&mut queue, at(1)).is_empty());
    assert_eq!(flush(&mut queue, at(2)), frames);
    assert_eq!(queue.free_space(), 1472 - 9);
    assert!(flush(&mut queue, at(4)).is_empty());
    assert_eq!(flush(&mut queue, at(5)), frames);
}

#[test]
fn unreliable_frame_is_given_up() {
    let mut queue = TransferQueue::new(7);
    let frames = send(&mut queue, &[], &[b"ab", b"c"], at(0));
    assert_eq!(frames, vec![vec![0, 0, 0, 0, 0, 7, b'a', b'b', b'c']]);
    assert_eq!(queue.free_space(), 1472 - 9);
    assert!(flush(&mut queue, at(2)).is_empty());
    assert!(queue.is_empty());
    assert_eq!(queue.free_space(), 1472);
}

#[test]
fn mixed_frame_keeps_reliable_part() {
    let mut queue = TransferQueue::new(7);
    let frames = send(&mut queue, &[b"r"], &[b"uu"], at(0));
    assert_eq!(frames, vec![vec![0, 1, 0, 0, 0, 7, b'r', b'u', b'u']]);
    assert_eq!(queue.free_space(), 1472 - 9);
    assert_eq!(flush(&mut queue, at(2)), vec![vec![0, 1, 0, 0, 0, 7, b'r']]);
    assert_eq!(queue.free_space(), 1472 - 7);
}

#[test]
fn unreliable_sentinel_leaves_an_empty_frame() {
    let mut queue = TransferQueue::new(63);
    send(&mut queue, &[], &[b"abc"], at(0));
    assert_eq!(flush(&mut queue, at(2)), vec![vec![0, 1, 0, 0, 0, 63]]);
    assert_eq!(queue.free_space(), 1472 - 6);
    // It has now been sent twice
    assert!(flush(&mut queue, at(4)).is_empty());
    assert_eq!(flush(&mut queue, at(5)).len(), 1);
    queue.acknowledge_frame(63);
    assert!(queue.is_empty());
}

#[test]
fn acknowledgement_frees_the_frame_and_grows_the_window() {
    let mut queue = TransferQueue::new(7);
    send(&mut queue, &[b"a"], &[], at(0));
    send(&mut queue, &[b"b"], &[], at(0));
    queue.acknowledge_frame(7);
    assert_eq!(queue.free_space(), 2944 - 7);
    // Again, or a stranger: nothing changes
    queue.acknowledge_frame(7);
    queue.acknowledge_frame(9);
    queue.acknowledge_frame(6);
    queue.acknowledge_frame(1000);
    assert_eq!(queue.free_space(), 2944 - 7);
    queue.acknowledge_frame(8);
    assert_eq!(queue.free_space(), 4416);
    assert!(queue.is_empty());
}

#[test]
fn acknowledgement_takes_only_its_frame() {
    let mut queue = TransferQueue::new(0);
    for byte in 0..3u8 {
        send(&mut queue, &[&[byte]], &[], at(0));
    }
    queue.acknowledge_frame(1);
    assert_eq!(
        flush(&mut queue, at(2)),
        vec![vec![0, 1, 0, 0, 0, 0, 0], vec![0, 1, 0, 0, 0, 2, 2]]
    );
}

#[test]
fn transfer_window_holds_128_ids() {
    let mut queue = TransferQueue::new(u32::MAX - 10);
    for _ in 0..128 {
        assert!(queue.can_send());
        send(&mut queue, &[], &[b""], at(0));
    }
    assert!(!queue.can_send());
    // An acknowledgement behind the oldest frame does not move the window
    queue.acknowledge_frame(100);
    assert!(!queue.can_send());
    queue.acknowledge_frame(u32::MAX - 10);
    assert!(queue.can_send());
}

#[test]
fn window_moves_to_the_oldest_frame_in_flight() {
    let mut queue = TransferQueue::new(0);
    for id in 0..100u32 {
        if id == 90 || id == 95 {
            send(&mut queue, &[b""], &[], at(0));
        } else {
            send(&mut queue, &[], &[b""], at(0));
        }
    }
    // What is left in flight: 63, 90 and 95
    assert_eq!(flush(&mut queue, at(2)).len(), 3);
    queue.acknowledge_frame(90);
    queue.acknowledge_frame(63);
    // The window now starts at 95
    for _ in 100..223 {
        assert!(queue.can_send());
        send(&mut queue, &[], &[b""], at(3));
    }
    assert!(!queue.can_send());
}

#[test]
fn used_up_window_waits_for_its_sentinels() {
    let mut queue = TransferQueue::new(0);
    for _ in 0..128 {
        send(&mut queue, &[], &[b""], at(0));
    }
    let frames = flush(&mut queue, at(2));
    assert_eq!(frames, vec![vec![0, 1, 0, 0, 0, 63], vec![0, 1, 0, 0, 0, 127]]);
    assert!(!queue.can_send());
    assert!(!queue.is_empty());
    queue.acknowledge_frame(63);
    assert!(queue.can_send());
}

#[test]
fn each_timeout_shrinks_the_window() {
    let mut queue = TransferQueue::new(0);
    for id in 0..3 {
        send(&mut queue, &[b"x"], &[], at(0));
        queue.acknowledge_frame(id);
    }
    assert_eq!(queue.free_space(), 4 * 1472);
    send(&mut queue, &[b"x"], &[], at(0));
    send(&mut queue, &[b"y"], &[], at(10));
    assert_eq!(flush(&mut queue, at(11)).len(), 1);
    assert_eq!(queue.free_space(), 2 * 1472 - 14);
}

#[test]
fn flush_skips_what_the_window_does_not_reach() {
    let mut queue = TransferQueue::new(0);
    send(&mut queue, &[b"x"], &[], at(0));
    queue.acknowledge_frame(0);
    let big = vec![1u8; 1400];
    let frames = send(&mut queue, &[&big], &[], at(0));
    let skipped = send(&mut queue, &[&big], &[], at(0));
    let small = send(&mut queue, &[b"s"], &[], at(0));
    // The first timeout shrinks the window to one frame, which the first entry nearly fills
    assert_eq!(flush(&mut queue, at(2)), vec![frames[0].clone(), small[0].clone()]);
    queue.acknowledge_frame(1);
    assert_eq!(flush(&mut queue, at(3)), skipped);
}

#[test]
fn flush_without_timeout_does_nothing() {
    let mut queue = TransferQueue::new(0);
    send(&mut queue, &[b"x"], &[b"y"], at(5));
    assert!(flush(&mut queue, at(0)).is_empty());
    assert!(flush(&mut queue, at(6)).is_empty());
    assert_eq!(queue.free_space(), 1472 - 8);
}
