use npuzzle::generator::{classic, reversed, snail, Generator};
use npuzzle::grid::Position;

#[test]
fn generator_classic_3x3() {
    let expected: Vec<usize> = vec![1, 2, 3, 4, 5, 6, 7, 8, 0];
    assert_eq!(classic(3), expected);
    assert_eq!(Generator::classic(3), expected);
}

#[test]
fn generator_classic_4x4() {
    let expected: Vec<usize> = vec![1, 2, 3, 4, 5, 6, 7, 8, 9, 10, 11, 12, 13, 14, 15, 0];
    assert_eq!(classic(4), expected);
    assert_eq!(Generator::classic(4), expected);
}

#[test]
fn generator_reversed_3x3() {
    let expected: Vec<usize> = vec![8, 7, 6, 5, 4, 3, 2, 1, 0];
    assert_eq!(reversed(3), expected);
    assert_eq!(Generator::reversed(3), expected);
}

#[test]
fn generator_reversed_4x4() {
    let expected: Vec<usize> = vec![15, 14, 13, 12, 11, 10, 9, 8, 7, 6, 5, 4, 3, 2, 1, 0];
    assert_eq!(reversed(4), expected);
    assert_eq!(Generator::reversed(4), expected);
}

#[test]
fn generator_snail_3x3() {
    let expected: Vec<usize> = vec![1, 2, 3, 8, 0, 4, 7, 6, 5];
    assert_eq!(snail(3), expected);
    assert_eq!(Generator::snail(3), expected);
}

#[test]
fn generator_snail_4x4() {
    let expected: Vec<usize> = vec![1, 2, 3, 4, 12, 13, 14, 5, 11, 0, 15, 6, 10, 9, 8, 7];
    assert_eq!(snail(4), expected);
    assert_eq!(Generator::snail(4), expected);
}

#[test]
fn snail_5x5() {
    let expected: Vec<usize> = vec![
        1, 2, 3, 4, 5, 16, 17, 18, 19, 6, 15, 24, 0, 20, 7, 14, 23, 22, 21, 8, 13, 12, 11, 10, 9,
    ];
    assert_eq!(snail(5), expected);
}

#[test]
fn generate_goal_by_name() {
    assert_eq!(Generator::generate_goal("classic", 3), classic(3));
    assert_eq!(Generator::generate_goal("reversed", 3), reversed(3));
    assert_eq!(Generator::generate_goal("snail", 3), snail(3));
    assert_eq!(Generator::generate_goal("anything", 3), snail(3));
}

#[test]
fn generator_levels() {
    assert_eq!(Generator::new(3, None, "easy", "snail", "dir").iter, 15);
    assert_eq!(Generator::new(3, None, "normal", "snail", "dir").iter, 75);
    assert_eq!(Generator::new(3, None, "hard", "snail", "dir").iter, 300);
    assert_eq!(Generator::new(3, None, "epic", "snail", "dir").iter, 30000);
    assert_eq!(Generator::new(3, None, "other", "snail", "dir").iter, 1);
    let g = Generator::new(4, Some(7), "easy", "classic", "out");
    assert_eq!(g.iter, 7);
    assert_eq!(g.target, "out/classic_7_4x4");
    assert_eq!(Generator::new(3, None, "hard", "snail", "dir").target, "dir/snail_hard_3x3");
}

#[test]
fn shuffled_map_keeps_tiles() {
    let g = Generator::new(3, Some(40), "easy", "classic", "dir");
    let map = g.shuffle_map(classic(3), Position { x: 2, y: 2 });
    let mut sorted = map.clone();
    sorted.sort();
    assert_eq!(sorted, vec![0, 1, 2, 3, 4, 5, 6, 7, 8]);
    let generated = g.generate_map("snail");
    let mut sorted = generated.clone();
    sorted.sort();
    assert_eq!(sorted, vec![0, 1, 2, 3, 4, 5, 6, 7, 8]);
}

#[test]
fn one_random_move_is_adjacent() {
    let g = Generator::new(3, Some(1), "easy", "classic", "dir");
    let map = g.shuffle_map(classic(3), Position { x: 2, y: 2 });
    // The blank in the corner can only go left or up.
    assert!(map == vec![1, 2, 3, 4, 5, 6, 7, 0, 8] || map == vec![1, 2, 3, 4, 5, 0, 7, 8, 6]);
}
