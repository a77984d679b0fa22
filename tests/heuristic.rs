use npuzzle::node::Node;

#[test]
fn distance() {
    assert_eq!(npuzzle::heuristic::distance(1, 8, 3), 3);
}

#[test]
fn manhattan() {
    let start: Node = Node::new(vec![2, 1, 8, 4, 6, 5, 7, 3, 0]);
    let end: Vec<usize> = vec![8, 0, 1, 2, 3, 4, 5, 6, 7];
    assert_eq!(npuzzle::heuristic::manhattan(start, &end, 3).h, 10);
}

#[test]
fn misplaced_tiles() {
    let start: Node = Node::new(vec![2, 3, 4, 5, 6, 7, 8, 0, 1]);
    let end: Vec<usize> = vec![8, 0, 1, 2, 3, 4, 5, 6, 7];
    assert_eq!(npuzzle::heuristic::misplaced_tiles(start, &end, 3).h, 8);
}

#[test]
fn out_of_axes() {
    let start: Node = Node::new(vec![0, 1, 2, 3, 4, 5, 6, 7, 8]);
    let end: Vec<usize> = vec![8, 0, 1, 2, 3, 4, 5, 6, 7];
    assert_eq!(npuzzle::heuristic::out_of_axes(start, &end, 3).h, 10);
}

#[test]
fn linear_conflict_1() {
    let start: Node = Node::new(vec![3, 0, 1, 2, 4, 6, 8, 5, 7]);
    let end: Vec<usize> = vec![8, 0, 1, 2, 3, 4, 5, 6, 7];
    assert_eq!(npuzzle::heuristic::linear_conflict(start, &end, 3).h, 15);
}

#[test]
fn linear_conflict_2() {
    let start: Node = Node::new(vec![3, 8, 1, 6, 4, 5, 0, 2, 7]);
    let end: Vec<usize> = vec![8, 0, 1, 2, 3, 4, 5, 6, 7];
    assert_eq!(npuzzle::heuristic::linear_conflict(start, &end, 3).h, 22);
}

#[test]
fn linear_conflict_3() {
    let start: Node =
        Node::new(vec![4, 1, 15, 2, 6, 8, 5, 7, 12, 9, 3, 10, 14, 13, 11, 0]);
    let end: Vec<usize> = vec![15, 0, 1, 2, 3, 4, 5, 6, 7, 8, 9, 10, 11, 12, 13, 14];
    assert_eq!(npuzzle::heuristic::linear_conflict(start, &end, 4).h, 46);
}
