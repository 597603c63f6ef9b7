use n_puzzle::parser::{flatten, parse_bytes, read_number, read_row, split_words, NUMBER_CAP};
use n_puzzle::{board_from_rows, is_teals_valid, parse_file, remove_comments, solve_text};
use n_puzzle::{Error, Failure, HeuristicKind, Move, ParseError};

fn lines(text: &str) -> Vec<String> {
    remove_comments(text.as_bytes())
        .into_iter()
        .map(|line| String::from_utf8(line).unwrap())
        .collect()
}

fn words(line: &str) -> Vec<String> {
    split_words(line.as_bytes()).into_iter().map(|w| String::from_utf8(w).unwrap()).collect()
}

#[test]
fn comments_and_blank_lines_are_dropped() {
    let text = "# a comment\n3\n\n1 2 3 # the first row\n   \n \t# only a comment\n4 5 6\n7 8 0";
    assert_eq!(lines(text), vec!["3", "1 2 3 ", "4 5 6", "7 8 0"]);
}

#[test]
fn remove_comments_on_edge_cases() {
    assert_eq!(lines(""), Vec::<String>::new());
    assert_eq!(lines("\n\n\n"), Vec::<String>::new());
    assert_eq!(lines("#"), Vec::<String>::new());
    assert_eq!(lines("a"), vec!["a"]);
    assert_eq!(lines("a\n"), vec!["a"]);
    assert_eq!(lines("a#b#c\nd"), vec!["a", "d"]);
    assert_eq!(lines("a\r\nb"), vec!["a\r", "b"]);
}

#[test]
fn words_are_runs_without_blanks() {
    assert_eq!(words("1 2 3"), vec!["1", "2", "3"]);
    assert_eq!(words("  10\t11 \r"), vec!["10", "11"]);
    assert_eq!(words(""), Vec::<String>::new());
    assert_eq!(words("   "), Vec::<String>::new());
    assert_eq!(words("x"), vec!["x"]);
}

#[test]
fn numbers_are_digits_with_or_without_a_plus() {
    assert_eq!(read_number(b"0"), Some(0));
    assert_eq!(read_number(b"42"), Some(42));
    assert_eq!(read_number(b"+42"), Some(42));
    assert_eq!(read_number(b"007"), Some(7));
    assert_eq!(read_number(b""), None);
    assert_eq!(read_number(b"+"), None);
    assert_eq!(read_number(b"-1"), None);
    assert_eq!(read_number(b"4a"), None);
    assert_eq!(read_number(b"++4"), None);
    assert_eq!(read_number(b"4+"), None);
}

#[test]
fn large_numbers_stop_at_the_cap() {
    assert_eq!(read_number(b"1208925819614629174706175"), Some(NUMBER_CAP - 1));
    assert_eq!(read_number(b"1208925819614629174706176"), Some(NUMBER_CAP));
    assert_eq!(read_number(b"1208925819614629174706177"), Some(NUMBER_CAP));
    assert_eq!(
        read_number(b"999999999999999999999999999999999999999999999999999999999999"),
        Some(NUMBER_CAP)
    );
    assert_eq!(
        read_number(b"99999999999999999999999999999999999999999999999999999999999x"),
        None
    );
}

#[test]
fn rows_are_tiles_of_at_most_255() {
    assert_eq!(read_row(b" 1 2  3 "), Some(vec![1, 2, 3]));
    assert_eq!(read_row(b"255 0"), Some(vec![255, 0]));
    assert_eq!(read_row(b""), Some(vec![]));
    assert_eq!(read_row(b"1 256 3"), None);
    assert_eq!(read_row(b"1 x 3"), None);
}

#[test]
fn flatten_puts_the_rows_in_a_line() {
    assert_eq!(flatten(&vec![vec![1, 2], vec![], vec![3], vec![4, 5, 6]]), vec![1, 2, 3, 4, 5, 6]);
    assert_eq!(flatten(&vec![]), Vec::<u8>::new());
}

#[test]
fn tiles_are_valid_when_each_occurs_once_below_their_number() {
    assert!(is_teals_valid(&vec![vec![1, 2, 3], vec![4, 5, 6], vec![7, 8, 0]]));
    assert!(is_teals_valid(&vec![vec![0]]));
    assert!(is_teals_valid(&vec![]));
    assert!(is_teals_valid(&vec![vec![1, 0], vec![2]]));
    assert!(!is_teals_valid(&vec![vec![1, 2, 3], vec![4, 5, 6], vec![7, 8, 8]]));
    assert!(!is_teals_valid(&vec![vec![1, 2, 3], vec![4, 5, 6], vec![7, 8, 9]]));
    assert!(!is_teals_valid(&vec![vec![1]]));
    let all: Vec<u8> = (0..=255).collect();
    assert!(is_teals_valid(&vec![all.clone()]));
    assert!(!is_teals_valid(&vec![all.clone(), vec![7]]));
}

#[test]
fn a_board_is_read_from_its_text() {
    let text = "# the start\n3\n1 2 3\n4 5 6 # middle\n\n7 8 0\n";
    assert_eq!(
        parse_file(text),
        Ok(vec![vec![1, 2, 3], vec![4, 5, 6], vec![7, 8, 0]])
    );
    assert_eq!(parse_bytes(b"+1\n0"), Ok(vec![vec![0]]));
    assert_eq!(parse_file("  2 # size\n0 1\n 3\t2 \n"), Ok(vec![vec![0, 1], vec![3, 2]]));
}

#[test]
fn every_parse_error_has_its_input() {
    assert_eq!(parse_file(""), Err(ParseError::Empty));
    assert_eq!(parse_file("# nothing\n   \n"), Err(ParseError::Empty));
    assert_eq!(parse_file("three\n1 2 3"), Err(ParseError::BadSize));
    assert_eq!(parse_file("3 3\n1 2 3"), Err(ParseError::BadSize));
    assert_eq!(parse_file("0"), Err(ParseError::BadSize));
    assert_eq!(parse_file("-3\n"), Err(ParseError::BadSize));
    assert_eq!(parse_file("3\n1 2 3\n4 5 6"), Err(ParseError::LineCount));
    assert_eq!(parse_file("2\n1 2\n3 0\n4 5"), Err(ParseError::LineCount));
    assert_eq!(
        parse_file("99999999999999999999999999999999999999\n1"),
        Err(ParseError::LineCount)
    );
    assert_eq!(parse_file("2\n1 x\n3 0"), Err(ParseError::BadTile));
    assert_eq!(parse_file("2\n1 256\n3 0"), Err(ParseError::BadTile));
    assert_eq!(parse_file("2\n1 2 3\n0"), Err(ParseError::ColumnCount));
    assert_eq!(parse_file("2\n1 2\n0"), Err(ParseError::ColumnCount));
    assert_eq!(parse_file("2\n1 2\n3 3"), Err(ParseError::BadTiles));
    assert_eq!(parse_file("2\n1 2\n3 4"), Err(ParseError::BadTiles));
}

#[test]
fn the_first_bad_line_decides_the_error() {
    assert_eq!(parse_file("2\n1 2 3\n0 x"), Err(ParseError::ColumnCount));
    assert_eq!(parse_file("2\n1 x\n0 1 2"), Err(ParseError::BadTile));
    // within a line a bad tile counts before the number of columns
    assert_eq!(parse_file("2\n1 2 x\n0 3"), Err(ParseError::BadTile));
}

#[test]
fn parse_error_descriptions() {
    assert_eq!(ParseError::Empty.description(), "file doesn't contain board");
    assert_eq!(ParseError::BadSize.description(), "error parsing line count");
    assert_eq!(
        ParseError::LineCount.description(),
        "error parsing line count: wrong number of lines"
    );
    assert_eq!(ParseError::BadTile.description(), "error parsing tile");
    assert_eq!(
        ParseError::ColumnCount.description(),
        "error parsing line: wrong number of columns"
    );
    assert_eq!(ParseError::BadTiles.description(), "error parsing teals");
}

#[test]
fn rows_make_a_board() {
    let b = board_from_rows(&vec![vec![1, 2, 3], vec![4, 5, 6], vec![7, 8, 0]]).unwrap();
    assert_eq!(b.data.to_vec(), vec![1, 2, 3, 4, 5, 6, 7, 8, 0]);
    assert_eq!(b.line_size, 3);
    assert_eq!(board_from_rows(&vec![vec![0, 1], vec![3, 2]]), Err(Error::InvalidBoard));
    assert_eq!(
        board_from_rows(&vec![vec![1, 2, 3], vec![4, 5, 6], vec![7, 8, 8]]),
        Err(Error::InvalidBoard)
    );
    // the rows are taken one after the other, whatever their lengths
    let ragged = board_from_rows(&vec![vec![1, 2, 3, 4], vec![5, 6, 7, 8], vec![0]]).unwrap();
    assert_eq!(ragged.data.to_vec(), vec![1, 2, 3, 4, 5, 6, 7, 8, 0]);
    assert_eq!(ragged.line_size, 3);
}

#[test]
fn heuristics_go_by_name() {
    assert_eq!(HeuristicKind::from_name("manhattan"), HeuristicKind::Manhattan);
    assert_eq!(HeuristicKind::from_name("dijkstra"), HeuristicKind::Dijkstra);
    assert_eq!(HeuristicKind::from_name("euclidean"), HeuristicKind::Euclidean);
    assert_eq!(HeuristicKind::from_name("miss_placed"), HeuristicKind::MissPlaced);
    assert_eq!(HeuristicKind::from_name("out_of_raw"), HeuristicKind::OutOfRaw);
    assert_eq!(HeuristicKind::from_name("anything"), HeuristicKind::Manhattan);
    assert_eq!(HeuristicKind::from_name(""), HeuristicKind::Manhattan);
    assert_eq!(HeuristicKind::from_name("Dijkstra"), HeuristicKind::Manhattan);
}

#[test]
fn texts_are_solved() {
    let start = "3\n1 2 3\n4 5 6\n7 8 0\n";
    let target = "# target\n3\n1 2 3\n0 4 6\n7 5 8\n";
    for name in ["manhattan", "dijkstra", "euclidean", "miss_placed", "out_of_raw", "?"] {
        let (_, _, moves) = solve_text(start, target, name).unwrap();
        assert_eq!(moves, vec![Move::Right, Move::Down, Move::Right]);
    }
}

#[test]
fn texts_are_refused_in_order() {
    let good = "3\n1 2 3\n4 5 6\n7 8 0\n";
    let swapped = "3\n1 2 3\n4 5 6\n8 7 0\n";
    let small = "2\n1 2\n3 0\n";
    let large = "4\n1 2 3 4\n5 6 7 8\n9 10 11 12\n13 14 15 0\n";
    assert_eq!(solve_text("", "", "manhattan"), Err(Failure::EmptyInput));
    assert_eq!(solve_text(good, "", "manhattan"), Err(Failure::EmptyExpected));
    assert_eq!(solve_text("x", "y", "manhattan"), Err(Failure::Input(ParseError::BadSize)));
    assert_eq!(solve_text(good, "#", "manhattan"), Err(Failure::Expected(ParseError::Empty)));
    assert_eq!(solve_text(small, "y", "manhattan"), Err(Failure::Puzzle(Error::InvalidBoard)));
    assert_eq!(solve_text(good, small, "manhattan"), Err(Failure::Puzzle(Error::InvalidBoard)));
    assert_eq!(solve_text(good, large, "manhattan"), Err(Failure::Puzzle(Error::UnmatchingSizes)));
    assert_eq!(solve_text(good, swapped, "manhattan"), Err(Failure::Puzzle(Error::Unsolvable)));
}
