use hanoi::HanoiError;
use hanoi::PegId;
use hanoi::Towers;

#[test]
fn new_towers_put_every_disk_on_a() {
    let t = Towers::new(4);
    assert_eq!(t.a, vec![4, 3, 2, 1]);
    assert_eq!(t.b, Vec::<usize>::new());
    assert_eq!(t.c, Vec::<usize>::new());
}

#[test]
fn peek_reads_the_top_without_moving_it() {
    let t = Towers::new(3);
    assert_eq!(t.peek_top(PegId::A), Some(1));
    assert_eq!(t.peek_top(PegId::B), None);
    assert_eq!(t.peek_top(PegId::C), None);
    assert_eq!(t.a, vec![3, 2, 1]);
}

#[test]
fn pop_removes_only_the_top_disk() {
    let mut t = Towers::new(3);
    assert_eq!(t.pop_top(PegId::A), Ok(1));
    assert_eq!(t.a, vec![3, 2]);
    assert_eq!(t.pop_top(PegId::A), Ok(2));
    assert_eq!(t.a, vec![3]);
}

#[test]
fn pop_on_an_empty_peg_fails_and_keeps_state() {
    let mut t = Towers::new(3);
    assert_eq!(t.pop_top(PegId::B), Err(HanoiError::EmptyPegError));
    assert_eq!(t.a, vec![3, 2, 1]);
    assert_eq!(t.b, Vec::<usize>::new());
    assert_eq!(t.c, Vec::<usize>::new());
}

#[test]
fn push_appends_on_top() {
    let mut t = Towers::new(2);
    t.push(PegId::C, 9);
    t.push(PegId::C, 4);
    assert_eq!(t.c, vec![9, 4]);
    assert_eq!(t.a, vec![2, 1]);
}

#[test]
fn render_lists_rows_from_the_top_down() {
    let t = Towers::new(3);
    assert_eq!(t.render_rows(3), vec![(1, 0, 0), (2, 0, 0), (3, 0, 0)]);
}

#[test]
fn render_after_moves_shows_each_height() {
    let mut t = Towers::new(3);
    let d = t.pop_top(PegId::A).unwrap();
    t.push(PegId::C, d);
    assert_eq!(t.render_rows(3), vec![(0, 0, 0), (2, 0, 0), (3, 0, 1)]);
}

#[test]
fn render_height_can_exceed_the_tallest_peg() {
    let t = Towers::new(1);
    assert_eq!(t.render_rows(2), vec![(0, 0, 0), (1, 0, 0)]);
    assert_eq!(t.render_rows(0), Vec::<(usize, usize, usize)>::new());
}
