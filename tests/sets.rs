use npuzzle::closed::ClosedSet;
use npuzzle::grid::Move;
use npuzzle::open::OpenSet;

#[test]
fn closed_set_records_moves() {
    let mut closed = ClosedSet::new();
    assert_eq!(closed.len(), 0);
    closed.insert(vec![1, 2, 0], Move::No);
    closed.insert(vec![1, 0, 2], Move::Left(-1));
    assert_eq!(closed.len(), 2);
    assert!(closed.contains_key(&vec![1, 2, 0]));
    assert!(!closed.contains_key(&vec![0, 1, 2]));
    assert_eq!(closed.get(&vec![1, 0, 2]), Some(Move::Left(-1)));
    closed.insert(vec![1, 0, 2], Move::Up(-3));
    assert_eq!(closed.len(), 2);
    assert_eq!(closed.get(&vec![1, 0, 2]), Some(Move::Up(-3)));
    assert_eq!(closed.get(&vec![2, 1, 0]), None);
}

#[test]
fn open_set_pops_best_first() {
    let mut open = OpenSet::new(0);
    assert_eq!(open.insert((5, 1, 0)), None);
    assert_eq!(open.insert((3, 2, 1)), None);
    assert_eq!(open.insert((3, 1, 2)), None);
    assert_eq!(open.len(), 3);
    assert_eq!(open.pop_best(), Some((3, 1, 2)));
    assert_eq!(open.pop_best(), Some((3, 2, 1)));
    assert_eq!(open.pop_best(), Some((5, 1, 0)));
    assert_eq!(open.pop_best(), None);
}

#[test]
fn bounded_open_set_evicts_worst() {
    let mut open = OpenSet::new(2);
    assert_eq!(open.insert((4, 0, 0)), None);
    assert_eq!(open.insert((6, 0, 1)), None);
    // Full: a better entry comes in, the worst leaves.
    assert_eq!(open.insert((5, 0, 2)), Some((6, 0, 1)));
    // A worse entry is the one dropped.
    assert_eq!(open.insert((9, 0, 3)), Some((9, 0, 3)));
    assert_eq!(open.len(), 2);
    assert_eq!(open.pop_best(), Some((4, 0, 0)));
    assert_eq!(open.pop_best(), Some((5, 0, 2)));
}
