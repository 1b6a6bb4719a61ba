use fifteen_puzzle::board::{Board, Move};

fn solved_cells() -> Vec<u8> {
    vec![1, 2, 3, 4, 5, 6, 7, 8, 9, 10, 11, 12, 13, 14, 15, 0]
}

fn counts_are_zero_through_fifteen(cells: &Vec<u8>) -> bool {
    if cells.len() != 16 {
        return false;
    }
    for v in 0u8..16 {
        let mut n = 0;
        for c in cells.iter() {
            if *c == v {
                n += 1;
            }
        }
        if n != 1 {
            return false;
        }
    }
    true
}

#[test]
fn solved_board_layout() {
    let b = Board::solved();
    assert_eq!(b.get_board(), solved_cells());
}

#[test]
fn shuffled_board_holds_each_value_once() {
    for _ in 0..20 {
        let b = Board::new();
        let cells = b.get_board();
        assert!(counts_are_zero_through_fifteen(&cells));
    }
}

#[test]
fn values_stay_a_permutation_under_moves() {
    let mut b = Board::solved();
    for m in [Move::Up, Move::Left, Move::Up, Move::Down, Move::Right, Move::Left] {
        if let Some(nb) = b.move_tile(&m) {
            b = nb;
        }
        assert!(counts_are_zero_through_fifteen(&b.get_board()));
    }
}

#[test]
fn free_slot_finds_the_blank() {
    let b = Board::solved();
    assert_eq!(b.free_slot(), (3, 3));
    let b = b.move_tile(&Move::Up).unwrap();
    assert_eq!(b.free_slot(), (2, 3));
    let b = b.move_tile(&Move::Left).unwrap();
    assert_eq!(b.free_slot(), (2, 2));
}

#[test]
fn moving_up_swaps_blank_with_tile_above() {
    let b = Board::solved().move_tile(&Move::Up).unwrap();
    let expected = vec![1, 2, 3, 4, 5, 6, 7, 8, 9, 10, 11, 0, 13, 14, 15, 12];
    assert_eq!(b.get_board(), expected);
}

#[test]
fn edge_moves_are_rejected_on_all_four_sides() {
    // Blank starts at the bottom-right corner of the solved board.
    let corner = Board::solved();
    assert!(corner.move_tile(&Move::Down).is_none());
    assert!(corner.move_tile(&Move::Right).is_none());

    // Walk the blank to the top-left corner.
    let mut b = Board::solved();
    for m in [Move::Up, Move::Up, Move::Up, Move::Left, Move::Left, Move::Left] {
        b = b.move_tile(&m).unwrap();
    }
    assert_eq!(b.free_slot(), (0, 0));
    assert!(b.move_tile(&Move::Up).is_none());
    assert!(b.move_tile(&Move::Left).is_none());

    // The two remaining edges, seen from the other corners.
    let top_right = Board::solved()
        .move_tile(&Move::Up)
        .unwrap()
        .move_tile(&Move::Up)
        .unwrap()
        .move_tile(&Move::Up)
        .unwrap();
    assert_eq!(top_right.free_slot(), (0, 3));
    assert!(top_right.move_tile(&Move::Up).is_none());
    assert!(top_right.move_tile(&Move::Right).is_none());

    let bottom_left = Board::solved()
        .move_tile(&Move::Left)
        .unwrap()
        .move_tile(&Move::Left)
        .unwrap()
        .move_tile(&Move::Left)
        .unwrap();
    assert_eq!(bottom_left.free_slot(), (3, 0));
    assert!(bottom_left.move_tile(&Move::Down).is_none());
    assert!(bottom_left.move_tile(&Move::Left).is_none());
}

#[test]
fn a_legal_move_then_its_opposite_restores_the_board() {
    let pairs = [
        (Move::Up, Move::Down),
        (Move::Left, Move::Right),
    ];
    for (there, back) in pairs {
        let b = Board::solved();
        let moved = b.move_tile(&there).unwrap();
        let restored = moved.move_tile(&back).unwrap();
        assert_eq!(restored.get_board(), b.get_board());
    }
    // And from a corner where the other two directions are the legal ones.
    let mut b = Board::solved();
    for m in [Move::Up, Move::Up, Move::Up, Move::Left, Move::Left, Move::Left] {
        b = b.move_tile(&m).unwrap();
    }
    for (there, back) in [(Move::Down, Move::Up), (Move::Right, Move::Left)] {
        let moved = b.move_tile(&there).unwrap();
        let restored = moved.move_tile(&back).unwrap();
        assert_eq!(restored.get_board(), b.get_board());
    }
}

#[test]
fn clone_copies_the_layout() {
    let b = Board::solved().move_tile(&Move::Up).unwrap();
    let c = b.clone();
    assert_eq!(b.get_board(), c.get_board());
}
