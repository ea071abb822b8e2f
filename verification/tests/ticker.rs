use sprite_reify::ticker::Ticker;

#[test]
fn ticker_counts_whole_windows() {
    let mut t = Ticker::new(1000);
    assert_eq!(t.get_tick(), 0);
    t.update(2500);
    assert_eq!(t.get_tick(), 2);
    t.update(400);
    assert_eq!(t.get_tick(), 2);
    t.update(200);
    assert_eq!(t.get_tick(), 3);
}

#[test]
fn ticker_window_boundary_is_exclusive() {
    // a window only counts once it is strictly exceeded
    let mut t = Ticker::new(1000);
    t.update(1000);
    assert_eq!(t.get_tick(), 0);
    t.update(1);
    assert_eq!(t.get_tick(), 1);
}

#[test]
fn ticker_clear_restarts() {
    let mut t = Ticker::new(10);
    t.update(95);
    assert_eq!(t.get_tick(), 9);
    t.clear();
    assert_eq!(t.get_tick(), 0);
    t.update(11);
    assert_eq!(t.get_tick(), 1);
}
