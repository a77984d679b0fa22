use npuzzle::parser::{check_puzzle, check_size, parse_number, PuzzleError};

#[test]
fn numbers() {
    assert_eq!(parse_number("0"), Some(0));
    assert_eq!(parse_number("42"), Some(42));
    assert_eq!(parse_number("+7"), Some(7));
    assert_eq!(parse_number(""), None);
    assert_eq!(parse_number("+"), None);
    assert_eq!(parse_number("-1"), None);
    assert_eq!(parse_number("4a"), None);
    assert_eq!(parse_number("99999999999999999999999"), None);
}

#[test]
fn sizes() {
    assert_eq!(check_size("3"), Ok(3));
    assert_eq!(check_size("20"), Ok(20));
    assert_eq!(check_size("2"), Err(PuzzleError::SizeTooSmall));
    assert_eq!(check_size("21"), Err(PuzzleError::SizeTooBig));
    assert_eq!(check_size("x"), Err(PuzzleError::InvalidSize));
}

#[test]
fn valid_puzzle() {
    let lines = vec![vec!["1", "2", "3"], vec!["4", "5", "6"], vec!["7", "8", "0"]];
    assert_eq!(check_puzzle(lines, 3), Ok(vec![1, 2, 3, 4, 5, 6, 7, 8, 0]));
}

#[test]
fn rejected_puzzles() {
    let rows = vec![vec!["1", "2", "3"], vec!["4", "5", "6"]];
    assert_eq!(check_puzzle(rows, 3), Err(PuzzleError::Rows));
    let cols = vec![vec!["1", "2", "3"], vec!["4", "5"], vec!["7", "8", "0"]];
    assert_eq!(check_puzzle(cols, 3), Err(PuzzleError::Columns));
    let word = vec![vec!["1", "2", "3"], vec!["4", "x", "6"], vec!["7", "8", "0"]];
    assert_eq!(check_puzzle(word, 3), Err(PuzzleError::InvalidNumber("x".to_string())));
    let range = vec![vec!["1", "2", "3"], vec!["4", "9", "6"], vec!["7", "8", "0"]];
    assert_eq!(check_puzzle(range, 3), Err(PuzzleError::NotInRange("9".to_string())));
    let dup = vec![vec!["1", "2", "3"], vec!["4", "5", "6"], vec!["7", "8", "1"]];
    assert_eq!(check_puzzle(dup, 3), Err(PuzzleError::Duplicate(1)));
}
