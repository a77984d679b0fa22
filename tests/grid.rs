use npuzzle::grid::{swap_indexes, Container, Move, Position};

#[test]
fn opposite_is_an_involution() {
    let moves = [Move::Up(-3), Move::Down(3), Move::Left(-1), Move::Right(1), Move::No];
    for m in moves.iter() {
        assert_eq!(m.opposite().opposite(), *m);
    }
    assert_eq!(Move::Up(-4).opposite(), Move::Down(4));
    assert_eq!(Move::Left(-1).opposite(), Move::Right(1));
    assert_eq!(Move::No.opposite(), Move::No);
}

#[test]
fn offsets() {
    assert_eq!(Move::Down(4).get_offset(), 4);
    assert_eq!(Move::Left(-1).get_offset(), -1);
    assert_eq!(Move::No.get_offset(), 0);
}

#[test]
fn positions() {
    let p = Position { x: 1, y: 2 };
    assert_eq!(p.as_index(3), 7);
    assert_eq!(p.update(&Move::Left(-1)), Position { x: 0, y: 2 });
    assert_eq!(p.update(&Move::Up(-3)), Position { x: 1, y: 1 });
    assert_eq!(p.moved_element(&Move::Left(-1)), Position { x: 2, y: 2 });
    assert_eq!(p.moved_element(&Move::Down(3)), Position { x: 1, y: 1 });
    let corner = Position { x: 0, y: 0 };
    assert_eq!(
        corner.possible_moves(3),
        vec![Move::No, Move::Right(1), Move::No, Move::Down(3)]
    );
}

#[test]
fn do_move_swaps_blank() {
    let map: Vec<usize> = vec![1, 2, 3, 4, 5, 6, 7, 8, 0];
    let moved = Move::Left(-1).do_move(map, &Position { x: 2, y: 2 }, 3);
    assert_eq!(moved, vec![1, 2, 3, 4, 5, 6, 7, 0, 8]);
}

#[test]
fn inverse_lookup() {
    let goal: Vec<usize> = vec![1, 2, 3, 4, 5, 6, 7, 8, 0];
    let end = swap_indexes(goal.clone());
    assert_eq!(end, vec![8, 0, 1, 2, 3, 4, 5, 6, 7]);
    assert_eq!(Container(goal, 3).swap_indexes(), vec![8, 0, 1, 2, 3, 4, 5, 6, 7]);
}
