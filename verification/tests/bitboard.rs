use go_board::bitboard::Bitboard;

#[test]
fn new_board_is_empty() {
    let board = Bitboard::new(100);
    assert_eq!(board.capacity(), 100);
    assert_eq!(board.count(), 0);
    for i in 0..100 {
        assert!(!board.is_set(i));
    }
}

#[test]
fn zero_capacity_board_holds_nothing() {
    let mut board = Bitboard::new(0);
    assert_eq!(board.capacity(), 0);
    assert_eq!(board.count(), 0);
    assert!(!board.is_set(0));
    board.flip();
    assert_eq!(board.count(), 0);
    assert!(board == Bitboard::new(0));
}

#[test]
fn set_adds_one_position() {
    let mut board = Bitboard::new(130);
    board.set(0);
    board.set(63);
    board.set(64);
    board.set(129);
    assert_eq!(board.count(), 4);
    for i in 0..130 {
        assert_eq!(board.is_set(i), i == 0 || i == 63 || i == 64 || i == 129);
    }
    board.set(64);
    assert_eq!(board.count(), 4);
}

#[test]
fn unset_removes_one_position() {
    let mut board = Bitboard::new(130);
    board.set(5);
    board.set(64);
    board.set(128);
    board.unset(64);
    assert!(board.is_set(5));
    assert!(!board.is_set(64));
    assert!(board.is_set(128));
    assert_eq!(board.count(), 2);
    board.unset(64);
    assert_eq!(board.count(), 2);
}

#[test]
fn is_set_past_capacity_is_false() {
    let mut board = Bitboard::new(70);
    board.flip();
    assert!(board.is_set(69));
    assert!(!board.is_set(70));
    assert!(!board.is_set(127));
    assert!(!board.is_set(128));
    assert!(!board.is_set(usize::MAX));
}

#[test]
fn set_whole_line_sets_exactly_that_line() {
    let mut board = Bitboard::new(121);
    board.set_whole_line(3, 11);
    assert_eq!(board.count(), 11);
    for i in 0..121 {
        assert_eq!(board.is_set(i), 33 <= i && i < 44);
    }
}

#[test]
fn set_whole_line_across_word_boundaries() {
    let mut board = Bitboard::new(400);
    board.set_whole_line(1, 200);
    assert_eq!(board.count(), 200);
    for i in 0..400 {
        assert_eq!(board.is_set(i), i >= 200);
    }
    let mut other = Bitboard::new(441);
    other.set_whole_line(6, 21);
    for i in 0..441 {
        assert_eq!(other.is_set(i), 126 <= i && i < 147);
    }
}

#[test]
fn set_whole_line_keeps_what_was_set() {
    let mut board = Bitboard::new(64);
    board.set(1);
    board.set(40);
    board.set_whole_line(2, 8);
    assert_eq!(board.count(), 10);
    assert!(board.is_set(1));
    assert!(board.is_set(40));
    for i in 16..24 {
        assert!(board.is_set(i));
    }
    board.set_whole_line(2, 8);
    assert_eq!(board.count(), 10);
}

#[test]
fn set_whole_line_of_width_zero_changes_nothing() {
    let mut board = Bitboard::new(10);
    board.set(3);
    board.set_whole_line(7, 0);
    assert_eq!(board.count(), 1);
    assert!(board.is_set(3));
}

#[test]
fn set_whole_line_fills_a_full_word() {
    let mut board = Bitboard::new(192);
    board.set_whole_line(1, 64);
    assert_eq!(board.count(), 64);
    for i in 0..192 {
        assert_eq!(board.is_set(i), 64 <= i && i < 128);
    }
}

#[test]
fn flip_complements_within_capacity() {
    let mut board = Bitboard::new(9);
    board.set(4);
    board.flip();
    assert_eq!(board.count(), 8);
    for i in 0..9 {
        assert_eq!(board.is_set(i), i != 4);
    }
    assert!(!board.is_set(9));
    assert!(!board.is_set(63));
}

#[test]
fn flip_twice_restores_the_set() {
    let mut board = Bitboard::new(150);
    board.set(0);
    board.set(77);
    board.set(149);
    let copy = board.clone();
    board.flip();
    assert!(board != copy);
    assert_eq!(board.count(), 147);
    board.flip();
    assert!(board == copy);
    assert_eq!(board.count(), 3);
}

#[test]
fn count_counts_every_position_once() {
    let mut board = Bitboard::new(128);
    assert_eq!(board.count(), 0);
    board.flip();
    assert_eq!(board.count(), 128);
    board.unset(127);
    board.unset(0);
    assert_eq!(board.count(), 126);
}

#[test]
fn clone_is_equal_and_independent() {
    let mut board = Bitboard::new(90);
    board.set(10);
    board.set(89);
    let mut copy = board.clone();
    assert!(copy == board);
    assert_eq!(copy.capacity(), 90);
    assert_eq!(copy.count(), 2);
    copy.unset(10);
    assert!(board.is_set(10));
    assert!(!copy.is_set(10));
    assert!(copy != board);
}

#[test]
fn equality_compares_capacity_and_positions() {
    let mut a = Bitboard::new(70);
    let mut b = Bitboard::new(70);
    assert!(a == b);
    a.set(69);
    assert!(a != b);
    b.set(69);
    assert!(a == b);
    a.set(3);
    b.set(4);
    assert!(a != b);
    assert!(Bitboard::new(70) != Bitboard::new(71));
    assert!(Bitboard::new(64) != Bitboard::new(128));
}

#[test]
fn equality_ignores_how_a_set_was_reached() {
    let mut a = Bitboard::new(70);
    a.flip();
    a.flip();
    a.set(2);
    let mut b = Bitboard::new(70);
    b.set_whole_line(0, 70);
    b.flip();
    b.set(2);
    assert!(a == b);
    assert_eq!(a, b);
    let mut c = Bitboard::new(70);
    c.flip();
    let mut d = Bitboard::new(70);
    d.set_whole_line(0, 70);
    assert!(c == d);
}

#[test]
fn positions_lists_the_set_in_ascending_order() {
    let mut board = Bitboard::new(200);
    assert_eq!(board.positions(), Vec::<usize>::new());
    board.set(199);
    board.set(0);
    board.set(64);
    board.set(63);
    assert_eq!(board.positions(), vec![0, 63, 64, 199]);
    board.unset(63);
    assert_eq!(board.positions(), vec![0, 64, 199]);
}

#[test]
fn positions_after_flip_stay_within_capacity() {
    let mut board = Bitboard::new(5);
    board.set(2);
    board.flip();
    assert_eq!(board.positions(), vec![0, 1, 3, 4]);
    assert_eq!(board.positions().len(), board.count());
}
