use npuzzle::astar::SearchError;
use npuzzle::grid::{Container, Flag, Move};
use npuzzle::parser::{file_to_map, PuzzleError};
use npuzzle::puzzle_generator::{get_iterations, puzzle_to_str, generate_puzzle};
use npuzzle::runner::{get_map, run_program, RunError};

fn flag() -> Flag {
    Flag { verbosity: false, debug: false, greedy: false, uniform: false }
}

#[test]
fn reads_a_puzzle_file() {
    let text = "# a comment\n3\n1 2 3 # row one\n4 5 6\n\n7 0 8 // last\n";
    assert_eq!(file_to_map(text), Ok((3, vec![1, 2, 3, 4, 5, 6, 7, 0, 8])));
}

#[test]
fn rejects_bad_files() {
    assert_eq!(file_to_map("# nothing\n"), Err(PuzzleError::Empty));
    assert_eq!(file_to_map("2\n1 0\n2 3\n"), Err(PuzzleError::SizeTooSmall));
    assert_eq!(file_to_map("30\n"), Err(PuzzleError::SizeTooBig));
    assert_eq!(file_to_map("x\n"), Err(PuzzleError::InvalidSize));
    assert_eq!(file_to_map("3\n1 2 3\n4 5 6\n"), Err(PuzzleError::Rows));
    assert_eq!(file_to_map("3\n1 2 3\n4 5\n6 7 8\n"), Err(PuzzleError::Columns));
    assert_eq!(
        file_to_map("3\n1 2 3\n4 5 6\n7 8 8\n"),
        Err(PuzzleError::Duplicate(8))
    );
    assert_eq!(
        file_to_map("3\n1 2 3\n4 5 6\n7 8 -1\n"),
        Err(PuzzleError::InvalidNumber("-1".to_string()))
    );
}

#[test]
fn get_map_checks_goal() {
    let solvable = "3\n1 2 3\n4 5 6\n7 0 8\n";
    let (start, end, size) = get_map(solvable, "classic").unwrap();
    assert_eq!(start, vec![1, 2, 3, 4, 5, 6, 7, 0, 8]);
    assert_eq!(end, vec![8, 0, 1, 2, 3, 4, 5, 6, 7]);
    assert_eq!(size, 3);
    let unsolvable = "3\n2 1 3\n4 5 6\n7 8 0\n";
    assert_eq!(get_map(unsolvable, "classic"), Err(RunError::Unsolvable));
    let solved = "3\n1 2 3\n4 5 6\n7 8 0\n";
    assert_eq!(get_map(solved, "classic").unwrap().0, vec![1, 2, 3, 4, 5, 6, 7, 8, 0]);
    let sol = run_program(solved, "classic", "A*", "manhattan", flag()).unwrap();
    assert_eq!(sol.moves, 0);
    assert_eq!(sol.path.len(), 1);
}

#[test]
fn runs_each_algorithm() {
    let text = "3\n1 2 3\n4 5 6\n0 7 8\n";
    for algo in ["A*", "IDA*", "IA*", "GA*", "ILA*", "MA*"].iter() {
        let sol = run_program(text, "classic", algo, "manhattan", flag()).unwrap();
        assert_eq!(sol.moves, 2);
        assert_eq!(sol.path[2].map, vec![1, 2, 3, 4, 5, 6, 7, 8, 0]);
        assert_eq!(sol.path[1].movement, Move::Right(1));
    }
    let r = run_program("3\n2 1 3\n4 5 6\n7 8 0\n", "classic", "A*", "manhattan", flag());
    assert!(matches!(r, Err(RunError::Unsolvable)));
    assert!(!matches!(r, Err(RunError::Search(SearchError::Exhausted))));
}

#[test]
fn text_forms() {
    assert_eq!(Move::Left(-1).name(), "Left");
    assert_eq!(Move::No.name(), "Start State");
    assert_eq!(Container(vec![1, 2, 3, 0], 2).to_text(), "1   2\n3   0\n");
    assert_eq!(puzzle_to_str(vec![1, 2, 3, 0], 2), "2\n1\t2\t\n3\t0\t\n");
    assert_eq!(get_iterations("easy"), 15);
    assert_eq!(get_iterations("normal"), 51);
    assert_eq!(get_iterations("hard"), 141);
    assert_eq!(get_iterations("other"), 1);
    let mut p = generate_puzzle(3, 30, "classic");
    p.sort();
    assert_eq!(p, vec![0, 1, 2, 3, 4, 5, 6, 7, 8]);
}
