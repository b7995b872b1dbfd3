use frameio::congestion_window::CongestionWindow;

#[test]
fn window_starts_at_one_frame() {
    assert_eq!(CongestionWindow::new().size(), 1472);
}

#[test]
fn window_grows_by_one_frame_per_ack() {
    let mut window = CongestionWindow::new();
    window.signal_ack();
    assert_eq!(window.size(), 2944);
    window.signal_ack();
    assert_eq!(window.size(), 4416);
}

#[test]
fn window_halves_on_loss_and_rounds_up() {
    let mut window = CongestionWindow::new();
    window.signal_ack();
    window.signal_ack();
    for expected in [2208, 1840, 1656, 1564, 1518, 1495, 1484] {
        window.signal_nack();
        assert_eq!(window.size(), expected);
        window.signal_ack();
    }
}

#[test]
fn window_keeps_to_its_minimum() {
    let mut window = CongestionWindow::new();
    window.signal_nack();
    assert_eq!(window.size(), CongestionWindow::MIN_SIZE);
    window.signal_ack();
    window.signal_nack();
    window.signal_nack();
    assert_eq!(window.size(), 1472);
}

#[test]
fn window_keeps_to_its_maximum() {
    let mut window = CongestionWindow::new();
    for _ in 0..729_445 {
        window.signal_ack();
    }
    assert_eq!(window.size(), 1024 * 1024 * 1024);
    window.signal_ack();
    assert_eq!(window.size(), 1024 * 1024 * 1024);
    window.signal_nack();
    assert_eq!(window.size(), 512 * 1024 * 1024);
}
