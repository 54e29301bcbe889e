use go_board::board::{Board, Board9x9, Intersection, Player, BLACK, WHITE};

#[test]
fn players_are_the_two_booleans() {
    let black: Player = BLACK;
    let white: Player = WHITE;
    assert!(!black);
    assert!(white);
    assert_eq!(BLACK as usize, 0);
    assert_eq!(WHITE as usize, 1);
}

#[test]
fn smallest_board() {
    let board = Board::<1>::new();
    assert_eq!(board.size, 1);
    assert_eq!(board.empty_intersections.capacity(), 9);
    assert_eq!(board.out_of_bound_intersections.capacity(), 9);
    assert_eq!(board.empty_intersections.count(), 1);
    assert!(board.empty_intersections.is_set(1 * 3 + 1));
    assert_eq!(board.out_of_bound_intersections.count(), 8);
    for position in 0..9 {
        assert_eq!(board.empty_intersections.is_set(position), position == 4);
        assert_eq!(board.out_of_bound_intersections.is_set(position), position != 4);
    }
}

#[test]
fn nine_by_nine_board() {
    let board = Board9x9::new();
    assert_eq!(board.size, 9);
    assert_eq!(board.empty_intersections.capacity(), 121);
    assert_eq!(board.empty_intersections.count(), 81);
    assert_eq!(board.out_of_bound_intersections.count(), 40);
    for row in 1..=9 {
        for col in 1..=9 {
            assert!(board.empty_intersections.is_set(row * 11 + col));
            assert!(!board.out_of_bound_intersections.is_set(row * 11 + col));
        }
    }
}

#[test]
fn empty_region_has_size_squared_positions() {
    assert_eq!(Board::<2>::new().empty_intersections.count(), 4);
    assert_eq!(Board::<5>::new().empty_intersections.count(), 25);
    assert_eq!(Board::<13>::new().empty_intersections.count(), 169);
    assert_eq!(Board::<19>::new().empty_intersections.count(), 361);
}

#[test]
fn out_of_bound_region_has_the_remaining_positions() {
    assert_eq!(Board::<2>::new().out_of_bound_intersections.count(), 16 - 4);
    assert_eq!(Board::<5>::new().out_of_bound_intersections.count(), 49 - 25);
    assert_eq!(Board::<13>::new().out_of_bound_intersections.count(), 225 - 169);
    assert_eq!(Board::<19>::new().out_of_bound_intersections.count(), 441 - 361);
}

#[test]
fn empty_and_out_of_bound_partition_the_grid() {
    let board = Board::<19>::new();
    for position in 0..441 {
        let empty = board.empty_intersections.is_set(position);
        let out_of_bound = board.out_of_bound_intersections.is_set(position);
        assert!(empty != out_of_bound);
    }
    assert!(!board.empty_intersections.is_set(441));
    assert!(!board.out_of_bound_intersections.is_set(441));
}

#[test]
fn inner_positions_are_empty() {
    let board = Board::<13>::new();
    for row in 1..=13 {
        for col in 1..=13 {
            let position: Intersection = row * 15 + col;
            assert!(board.empty_intersections.is_set(position));
            assert!(!board.out_of_bound_intersections.is_set(position));
        }
    }
}

#[test]
fn border_positions_are_out_of_bound() {
    let board = Board::<13>::new();
    for k in 0..15 {
        for position in [k, 14 * 15 + k, k * 15, k * 15 + 14] {
            assert!(board.out_of_bound_intersections.is_set(position));
            assert!(!board.empty_intersections.is_set(position));
        }
    }
}

#[test]
fn new_board_has_no_stones_and_black_to_move() {
    let board = Board::<9>::new();
    assert_eq!(board.occupied_intersections[BLACK as usize].count(), 0);
    assert_eq!(board.occupied_intersections[WHITE as usize].count(), 0);
    assert_eq!(board.occupied_intersections[0].capacity(), 121);
    assert_eq!(board.occupied_intersections[1].capacity(), 121);
    for position in 0..121 {
        assert!(!board.occupied_intersections[0].is_set(position));
        assert!(!board.occupied_intersections[1].is_set(position));
    }
    assert_eq!(board.to_move, BLACK);
    assert_eq!(board.ko, None);
}

#[test]
fn out_of_bound_is_the_complement_of_empty() {
    let board = Board::<7>::new();
    let mut complement = board.empty_intersections.clone();
    complement.flip();
    assert!(complement == board.out_of_bound_intersections);
}

#[test]
fn two_new_boards_are_identical() {
    let first = Board::<9>::new();
    let second = Board::<9>::new();
    assert!(first.empty_intersections == second.empty_intersections);
    assert!(first.out_of_bound_intersections == second.out_of_bound_intersections);
    assert!(first.occupied_intersections[0] == second.occupied_intersections[0]);
    assert!(first.occupied_intersections[1] == second.occupied_intersections[1]);
    assert_eq!(first.to_move, second.to_move);
    assert_eq!(first.ko, second.ko);
    assert_eq!(first.size, second.size);
    let larger = Board::<19>::new();
    assert!(larger.empty_intersections == Board::<19>::new().empty_intersections);
    assert!(larger.empty_intersections != first.empty_intersections);
}

#[test]
fn regions_of_a_board_can_be_changed_by_its_owner() {
    let mut board = Board::<9>::new();
    let position: Intersection = 5 * 11 + 5;
    board.empty_intersections.unset(position);
    board.occupied_intersections[BLACK as usize].set(position);
    board.to_move = WHITE;
    board.ko = Some(position);
    assert_eq!(board.empty_intersections.count(), 80);
    assert_eq!(board.occupied_intersections[0].count(), 1);
    assert!(board.occupied_intersections[0].is_set(position));
    assert_eq!(board.out_of_bound_intersections.count(), 40);
    assert_eq!(board.to_move, WHITE);
    assert_eq!(board.ko, Some(position));
}
