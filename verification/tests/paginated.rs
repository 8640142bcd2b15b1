use simple_backup::paginated::State;

#[test]
fn pages_move_forward_and_back() {
    let mut s = State::new(10, 25);
    assert_eq!(s.index, 0);
    assert_eq!(s.get_total(), 25);
    s.next_page();
    assert_eq!(s.index, 10);
    s.next_page();
    assert_eq!(s.index, 20);
    s.next_page();
    assert_eq!(s.index, 20);
    s.prev_page();
    assert_eq!(s.index, 10);
    s.prev_page();
    s.prev_page();
    assert_eq!(s.index, 0);
}

#[test]
fn next_then_prev_returns() {
    let mut s = State::new(7, 30);
    s.goto(5);
    s.next_page();
    assert_eq!(s.index, 12);
    s.prev_page();
    assert_eq!(s.index, 5);
}

#[test]
fn goto_past_the_end_shows_the_last_page() {
    let mut s = State::new(10, 25);
    s.goto(3);
    assert_eq!(s.index, 3);
    s.goto(25);
    assert_eq!(s.index, 25);
    s.goto(26);
    assert_eq!(s.index, 15);
}

#[test]
fn set_total_goes_to_the_start() {
    let mut s = State::new(10, 25);
    s.next_page();
    s.set_total(4);
    assert_eq!(s.index, 0);
    assert_eq!(s.get_total(), 4);
    assert!(!s.has_pages());
    assert_eq!(s.page_bounds(), (0, 4));
    let mut s = State::new(10, 25);
    s.goto(20);
    assert_eq!(s.page_bounds(), (20, 5));
    assert!(s.has_pages());
}
