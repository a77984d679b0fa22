use npuzzle::grid::{is_valid_arrangement, Flag};
use npuzzle::runner::{run_program, RunError};

fn flag() -> Flag {
    Flag { verbosity: false, debug: false, greedy: false, uniform: false }
}

#[test]
fn invalid_puzzle() {
    let cases: Vec<(&str, &str)> = vec![
        ("3\n1 2 3\n4 5 6\n7 8 8\n", "duplicate"),
        ("3\n1 2 3\n4 5 6\n", "rows"),
        ("3\n1 2 3\n4 5\n6 7 8 0\n", "columns"),
        ("3\n1 2 3\n4 5 6\n7 8 x\n", "number"),
        ("3\n1 2 3\n4 5 6\n7 8 9\n", "range"),
        ("1\n0\n", "small"),
        ("42\n", "big"),
        ("size\n", "size"),
    ];
    for (text, keyword) in cases.iter() {
        match run_program(text, "snail", "a_star", "manhattan", flag()) {
            Ok(_) => assert!(false, "[{}] should return an error", text),
            Err(e) => {
                let message = format!("{:?}", e).to_lowercase();
                let key = match *keyword {
                    "duplicate" => "duplicate",
                    "rows" => "rows",
                    "columns" => "columns",
                    "number" => "invalidnumber",
                    "range" => "notinrange",
                    "small" => "sizetoosmall",
                    "big" => "sizetoobig",
                    _ => "invalidsize",
                };
                assert!(
                    message.contains(key),
                    "expected an error with keyword [{}] instead of [{}] for [{}]",
                    keyword,
                    message,
                    text
                );
            }
        }
    }
}

#[test]
fn solvable_puzzles_solvable_puzzle() {
    let cases: Vec<(&str, &str)> = vec![
        ("classic", "3\n1 2 3\n4 5 6\n7 0 8\n"),
        ("classic", "3\n1 2 3\n4 0 6\n7 5 8\n"),
        ("snail", "3\n1 2 3\n8 4 0\n7 6 5\n"),
        ("reversed", "3\n8 7 6\n5 4 3\n2 0 1\n"),
    ];
    for (mode, text) in cases.iter() {
        match run_program(text, mode, "a_star", "manhattan", flag()) {
            Ok(_) => {}
            Err(_) => assert!(false, "[{}] should be solvable", text),
        }
    }
}

#[test]
fn unsolvable_puzzles_solvable_puzzle() {
    let cases: Vec<(&str, &str)> = vec![
        ("classic", "3\n2 1 3\n4 5 6\n7 8 0\n"),
        ("snail", "3\n2 1 3\n8 0 4\n7 6 5\n"),
        ("reversed", "3\n7 8 6\n5 4 3\n2 1 0\n"),
    ];
    for (mode, text) in cases.iter() {
        match run_program(text, mode, "a_star", "manhattan", flag()) {
            Ok(_) => assert!(false, "[{}] should be unsolvable", text),
            Err(e) => assert!(e == RunError::Unsolvable, "expected [unsolvable] instead of [{:?}]", e),
        }
    }
}

#[test]
fn arrangement_check_rejects_malformed_grids() {
    assert!(is_valid_arrangement(&vec![1, 2, 3, 4, 5, 6, 7, 8, 0], 3));
    assert!(!is_valid_arrangement(&vec![1, 2, 3, 4, 5, 6, 7, 8, 8], 3));
    assert!(!is_valid_arrangement(&vec![1, 2, 3, 4, 5, 6, 7, 8], 3));
    assert!(!is_valid_arrangement(&vec![1, 2, 3, 4, 5, 6, 7, 8, 9], 3));
}
