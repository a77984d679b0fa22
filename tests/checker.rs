use npuzzle::checker::{get_inversions, is_solvable};

#[test]
fn inversions() {
    let a: Vec<usize> = vec![4, 3, 2, 1];
    assert_eq!(get_inversions(&a), 6);
}

#[test]
fn inversions_ignore_zero() {
    let a: Vec<usize> = vec![3, 2, 1, 0];
    assert_eq!(get_inversions(&a), 3);
}

#[test]
fn inversions_none() {
    let a: Vec<usize> = vec![1, 2, 3, 4];
    assert_eq!(get_inversions(&a), 0);
}

#[test]
fn is_solvable_inverted() {
    let a: Vec<usize> = vec![1, 2, 3, 4, 5, 6, 7, 8, 0];
    let b: Vec<usize> = vec![1, 3, 2, 4, 5, 6, 7, 8, 0];
    assert!(!is_solvable(&a, &b, 3));
    assert!(!is_solvable(&b, &a, 3));
}

#[test]
fn is_solvable_identity() {
    let a: Vec<usize> = vec![1, 2, 3, 4, 5, 6, 7, 8, 0];
    let b: Vec<usize> = vec![1, 2, 3, 4, 5, 6, 7, 8, 0];
    assert!(is_solvable(&a, &b, 3));
    assert!(is_solvable(&b, &a, 3));
}

#[test]
fn is_solvable_4x4() {
    let a: Vec<usize> = vec![1, 2, 3, 4, 5, 6, 7, 8, 9, 10, 11, 12, 13, 14, 15, 0];
    let b: Vec<usize> = vec![1, 2, 3, 4, 5, 6, 7, 8, 9, 10, 11, 12, 13, 14, 0, 15];
    assert!(is_solvable(&a, &b, 3));
    assert!(is_solvable(&b, &a, 3));
}

#[test]
fn is_solvable_4x4_identity() {
    let a: Vec<usize> = vec![1, 2, 3, 4, 5, 6, 7, 8, 9, 10, 11, 12, 13, 14, 15, 0];
    let b: Vec<usize> = vec![1, 2, 3, 4, 5, 6, 7, 8, 9, 10, 11, 12, 13, 14, 15, 0];
    assert!(is_solvable(&a, &b, 3));
    assert!(is_solvable(&b, &a, 3));
}

#[test]
fn blank_row_counts_on_even_side() {
    // Sliding the blank up one row on a 4x4 grid keeps the puzzle solvable.
    let goal: Vec<usize> = vec![1, 2, 3, 4, 5, 6, 7, 8, 9, 10, 11, 12, 13, 14, 15, 0];
    let up: Vec<usize> = vec![1, 2, 3, 4, 5, 6, 7, 8, 9, 10, 11, 0, 13, 14, 15, 12];
    assert!(is_solvable(&up, &goal, 4));
    // Swapping two tiles does not.
    let swapped: Vec<usize> = vec![2, 1, 3, 4, 5, 6, 7, 8, 9, 10, 11, 12, 13, 14, 15, 0];
    assert!(!is_solvable(&swapped, &goal, 4));
}

#[test]
fn blank_first_against_classic_goal() {
    // Golden value: [0,1,..,8] has 0 inversions, the classic goal too: same parity.
    let start: Vec<usize> = vec![0, 1, 2, 3, 4, 5, 6, 7, 8];
    let goal: Vec<usize> = vec![1, 2, 3, 4, 5, 6, 7, 8, 0];
    assert!(is_solvable(&start, &goal, 3));
}
