use peg_solitaire::board::Board;
use peg_solitaire::search::search_for_solution;
use peg_solitaire::triangle::{
    create_board_position_map, create_reverse_board_position_map, create_triangle_map,
    get_board_coors, triangle_number,
};

fn make_board(size: usize, empty_position: usize) -> Board {
    let fwd = create_board_position_map(size);
    let rev = create_reverse_board_position_map(size);
    Board::new(size, empty_position, fwd, rev)
}

/// A winning move list for the classic 15-slot board with slot 1 empty.
fn classic_solution() -> Vec<(usize, usize)> {
    vec![
        (4, 1),
        (6, 4),
        (1, 6),
        (7, 2),
        (13, 4),
        (2, 7),
        (10, 8),
        (7, 9),
        (15, 13),
        (12, 14),
        (6, 13),
        (14, 12),
        (11, 13),
    ]
}

fn replay(board: Board, moves: &[(usize, usize)]) -> Board {
    let mut current = board;
    for &(from, to) in moves {
        current = current
            .action(from, to)
            .expect("replaying a winning move list must never fail");
    }
    current
}

#[test]
fn triangle_number_matches_formula() {
    assert_eq!(triangle_number(1), 1);
    assert_eq!(triangle_number(2), 3);
    assert_eq!(triangle_number(3), 6);
    assert_eq!(triangle_number(5), 15);
    assert_eq!(triangle_number(10), 55);
}

#[test]
fn coordinate_maps_are_mutual_inverses() {
    for size in 1..=6usize {
        let total = triangle_number(size);
        let fwd = create_board_position_map(size);
        let rev = create_reverse_board_position_map(size);
        assert_eq!(fwd.len(), total);
        assert_eq!(rev.len(), size);
        for position in 1..=total {
            let (row, col) = fwd[position - 1];
            assert!(col <= row && row < size);
            assert_eq!(rev[row][col], position);
            assert_eq!(get_board_coors(size, position), (row, col));
        }
        for row in 0..size {
            assert_eq!(rev[row].len(), row + 1);
            for col in 0..=row {
                let position = rev[row][col];
                assert_eq!(fwd[position - 1], (row, col));
            }
        }
    }
}

#[test]
fn sample_coordinates_of_classic_board() {
    assert_eq!(get_board_coors(5, 1), (0, 0));
    assert_eq!(get_board_coors(5, 13), (4, 2));
    assert_eq!(get_board_coors(5, 15), (4, 4));
}

#[test]
fn triangle_map_lists_row_ending_indices() {
    let m = create_triangle_map(5);
    assert_eq!(m, vec![(1, 1), (3, 2), (6, 3), (10, 4), (15, 5)]);
}

#[test]
fn new_board_keeps_slot_conservation() {
    let board = make_board(5, 1);
    assert_eq!(board.true_count, 14);
    assert_eq!(board.empty_positions, vec![1]);
    assert_eq!(board.data.len(), 15);
    assert!(!board.data[0]);
    assert!(board.data[1..].iter().all(|&peg| peg));
    assert_eq!(board.empty_positions.len() + board.true_count, 15);
}

#[test]
fn conservation_holds_after_every_action() {
    let mut board = make_board(5, 1);
    for &(from, to) in classic_solution().iter() {
        board = board.action(from, to).expect("move must apply");
        let total = triangle_number(board.size);
        assert_eq!(board.empty_positions.len() + board.true_count, total);
        let pegs = board.data.iter().filter(|&&peg| peg).count();
        assert_eq!(board.true_count, pegs);
    }
}

#[test]
fn actions_of_fresh_classic_board() {
    let board = make_board(5, 1);
    assert_eq!(board.get_actions(), vec![(4, 1), (6, 1)]);
}

#[test]
fn every_enumerated_action_applies_and_decrements() {
    let mut board = make_board(5, 1);
    for _ in 0..4 {
        let actions = board.get_actions();
        assert!(!actions.is_empty());
        for &(from, to) in &actions {
            let next = board.action(from, to).expect("an enumerated move must apply");
            assert_eq!(next.true_count, board.true_count - 1);
        }
        let (from, to) = actions[0];
        board = board.action(from, to).unwrap();
    }
}

#[test]
fn action_rejects_illegal_pairs() {
    let board = make_board(5, 1);
    // Destination occupied.
    assert!(board.action(1, 4).is_none());
    let after = board.action(4, 1).expect("legal move");
    // Source no longer holds a peg.
    assert!(after.action(4, 1).is_none());
}

#[test]
fn terminal_only_with_one_peg() {
    let board = make_board(5, 1);
    assert!(!board.is_terminal());
    let end = replay(board, &classic_solution());
    assert_eq!(end.true_count, 1);
    assert!(end.is_terminal());
}

#[test]
fn one_move_win_is_found_in_exactly_one_move() {
    let solution = classic_solution();
    let board = replay(make_board(5, 1), &solution[..12]);
    assert_eq!(board.true_count, 2);
    let node = search_for_solution(board).expect("a one-move win must be found");
    assert_eq!(node.move_list, vec![(11, 13)]);
    assert!(node.board.is_terminal());
}

#[test]
fn search_finds_shortest_finish_from_five_pegs() {
    let solution = classic_solution();
    let board = replay(make_board(5, 1), &solution[..9]);
    assert_eq!(board.true_count, 5);
    let node = search_for_solution(board.clone_board()).expect("a finish must be found");
    assert_eq!(node.move_list.len(), 4);
    let end = replay(board, &node.move_list);
    assert!(end.is_terminal());
}

#[test]
fn terminal_board_solves_in_zero_moves() {
    let board = replay(make_board(5, 1), &classic_solution());
    assert!(board.is_terminal());
    let node = search_for_solution(board).expect("a terminal board is its own solution");
    assert!(node.move_list.is_empty());
    assert!(node.board.is_terminal());
}

#[test]
fn size_one_board_has_no_pegs_and_no_solution() {
    let board = make_board(1, 1);
    assert_eq!(board.true_count, 0);
    assert!(!board.is_terminal());
    assert!(board.get_actions().is_empty());
    assert!(search_for_solution(board).is_none());
}

#[test]
fn size_two_board_has_no_solution() {
    for empty_position in 1..=3usize {
        let board = make_board(2, empty_position);
        assert!(board.get_actions().is_empty());
        assert!(search_for_solution(board).is_none());
    }
}

#[test]
fn size_three_board_has_no_solution() {
    let board = make_board(3, 1);
    assert!(search_for_solution(board).is_none());
}

#[test]
fn replaying_classic_solution_never_fails_and_ends_terminal() {
    let mut board = make_board(5, 1);
    for &(from, to) in classic_solution().iter() {
        let next = board.action(from, to);
        assert!(next.is_some(), "replaying a returned move list must never fail");
        board = next.unwrap();
    }
    assert!(board.is_terminal());
    assert_eq!(board.true_count, 1);
}
