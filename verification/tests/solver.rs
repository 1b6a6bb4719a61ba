use fifteen_puzzle::board::{Board, Move};
use fifteen_puzzle::solver::BoardSolver;

fn solved_cells() -> Vec<u8> {
    vec![1, 2, 3, 4, 5, 6, 7, 8, 9, 10, 11, 12, 13, 14, 15, 0]
}

fn apply_all(start: &Board, path: &Vec<Move>) -> Board {
    let mut b = start.clone();
    for m in path.iter() {
        b = b.move_tile(m).expect("a returned move must be legal");
    }
    b
}

#[test]
fn solving_a_solved_board_returns_no_moves() {
    let b = Board::solved();
    let path = BoardSolver::solve(&b);
    assert!(path.is_empty());
}

#[test]
fn one_move_scramble_is_undone_by_the_single_opposite_move() {
    // The blank of the solved board sits in the bottom row, so the move
    // "Down" is rejected there; the one-move scramble must go "Up" instead,
    // and the solver must answer with the exact inverse, "Down".
    let solved = Board::solved();
    assert!(solved.move_tile(&Move::Down).is_none());

    let scrambled = solved.move_tile(&Move::Up).unwrap();
    let path = BoardSolver::solve(&scrambled);
    assert_eq!(path, vec![Move::Down]);
    let back = apply_all(&scrambled, &path);
    assert_eq!(back.get_board(), solved_cells());
}

#[test]
fn solver_restores_a_scrambled_board() {
    let scramble = [
        Move::Up,
        Move::Left,
        Move::Up,
        Move::Left,
        Move::Down,
        Move::Right,
    ];
    let mut b = Board::solved();
    for m in scramble {
        b = b.move_tile(&m).unwrap();
    }
    let path = BoardSolver::solve(&b);
    assert!(!path.is_empty());
    // The Manhattan heuristic is admissible, so the first goal found is a
    // shortest solution: never longer than the scramble that made the board.
    assert!(path.len() <= scramble.len());
    let end = apply_all(&b, &path);
    assert!(BoardSolver::check_board(&end));
    assert_eq!(end.get_board(), solved_cells());
}

#[test]
fn solver_restores_a_deeper_scramble() {
    let scramble = [
        Move::Up,
        Move::Up,
        Move::Left,
        Move::Down,
        Move::Left,
        Move::Up,
        Move::Left,
        Move::Down,
        Move::Right,
        Move::Down,
        Move::Right,
        Move::Up,
        Move::Left,
        Move::Up,
    ];
    let mut b = Board::solved();
    for m in scramble {
        b = b.move_tile(&m).unwrap();
    }
    let path = BoardSolver::solve(&b);
    assert!(!path.is_empty());
    assert!(path.len() <= scramble.len());
    let end = apply_all(&b, &path);
    assert!(BoardSolver::check_board(&end));
}

#[test]
fn check_board_recognises_only_the_goal() {
    let solved = Board::solved();
    assert!(BoardSolver::check_board(&solved));
    let moved = solved.move_tile(&Move::Up).unwrap();
    assert!(!BoardSolver::check_board(&moved));
}

#[test]
fn appropriate_slot_names_the_goal_cell() {
    assert_eq!(BoardSolver::appropriate_slot(1), (0, 0));
    assert_eq!(BoardSolver::appropriate_slot(4), (0, 3));
    assert_eq!(BoardSolver::appropriate_slot(5), (1, 0));
    assert_eq!(BoardSolver::appropriate_slot(12), (2, 3));
    assert_eq!(BoardSolver::appropriate_slot(15), (3, 2));
}

#[test]
fn heuristics_are_zero_exactly_on_the_goal() {
    let solved = Board::solved();
    assert_eq!(BoardSolver::heuristic(&solved), 0);
    assert_eq!(BoardSolver::heuristic_shortest_path(&solved), 0);

    let moved = solved.move_tile(&Move::Up).unwrap();
    assert_eq!(BoardSolver::heuristic(&moved), 1);
    assert_eq!(BoardSolver::heuristic_shortest_path(&moved), 1);
}

#[test]
fn manhattan_heuristic_never_overstates_the_distance() {
    // A board scrambled by k legal moves is at most k moves from the goal,
    // so an admissible heuristic may not exceed k.
    let mut b = Board::solved();
    let scramble = [
        Move::Up,
        Move::Left,
        Move::Down,
        Move::Left,
        Move::Up,
        Move::Up,
        Move::Right,
        Move::Down,
    ];
    let mut applied = 0;
    for m in scramble {
        if let Some(nb) = b.move_tile(&m) {
            b = nb;
            applied += 1;
        }
        assert!(BoardSolver::heuristic_shortest_path(&b) <= applied);
    }
}

#[test]
fn solving_a_freshly_shuffled_board_starts_from_a_valid_frontier() {
    // The shuffle itself must hand the solver a well-formed board; the
    // heuristics must stay within their bounds on it.
    let b = Board::new();
    let h = BoardSolver::heuristic(&b);
    assert!(h <= 15);
    let m = BoardSolver::heuristic_shortest_path(&b);
    assert!(m <= 96);
}
