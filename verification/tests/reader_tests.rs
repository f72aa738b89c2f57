use picross::board::Tile;
use picross::reader::DimParse;
use picross::reader::PuzzleReaderError;
use picross::reader::parse_dimensions;
use picross::reader::read_puzzle_lines;
use picross::reader::read_rules;

fn lines(ls: &[&str]) -> Vec<Vec<u8>> {
    ls.iter().map(|l| l.as_bytes().to_vec()).collect()
}

fn read_err(ls: &[&str]) -> PuzzleReaderError {
    match read_puzzle_lines(&lines(ls)) {
        Err(e) => e,
        Ok(_) => panic!("these lines must be rejected"),
    }
}

#[test]
fn dimensions_parse_with_padding() {
    assert_eq!(parse_dimensions(&b" 10 x 5 ".to_vec()), DimParse::Dims(10, 5));
    assert_eq!(parse_dimensions(&b"2x2".to_vec()), DimParse::Dims(2, 2));
}

#[test]
fn dimensions_without_mark_are_skippable() {
    assert_eq!(parse_dimensions(&b"hello".to_vec()), DimParse::NoMark);
}

#[test]
fn dimensions_malformed() {
    assert_eq!(parse_dimensions(&b"x5".to_vec()), DimParse::Malformed);
    assert_eq!(parse_dimensions(&b"ax5".to_vec()), DimParse::Malformed);
    assert_eq!(parse_dimensions(&b"3x".to_vec()), DimParse::Malformed);
    assert_eq!(parse_dimensions(&b"3x4x5".to_vec()), DimParse::Malformed);
}

#[test]
fn rules_parse_numbers() {
    let r = read_rules(&b" 2 10 1 ".to_vec(), 20, 20).expect("a plain clue line");
    assert_eq!(r, vec![2u32, 10, 1]);
}

#[test]
fn rules_empty_line_is_no_clue() {
    let r = read_rules(&b"   ".to_vec(), 5, 5).expect("a blank line parses");
    assert_eq!(r, Vec::<u32>::new());
}

#[test]
fn rules_reject_junk() {
    assert_eq!(read_rules(&b"1 two".to_vec(), 5, 5), Err(PuzzleReaderError::BadNumber));
    assert_eq!(read_rules(&b"1x".to_vec(), 5, 5), Err(PuzzleReaderError::BadNumber));
    assert_eq!(
        read_rules(&b"99999999999".to_vec(), 5, 5),
        Err(PuzzleReaderError::BadNumber)
    );
}

#[test]
fn rules_reject_zero_run() {
    assert_eq!(read_rules(&b"1 0".to_vec(), 5, 5), Err(PuzzleReaderError::ZeroRunLength));
}

#[test]
fn rules_reject_too_many_runs() {
    // Three runs need five cells to separate; only four are granted.
    assert_eq!(read_rules(&b"1 1 1".to_vec(), 9, 4), Err(PuzzleReaderError::TooManyRules));
}

#[test]
fn rules_reject_overlong_clue() {
    // 3 + 3 plus one separator is seven cells on a five-cell line.
    assert_eq!(read_rules(&b"3 3".to_vec(), 5, 5), Err(PuzzleReaderError::RuleTooLong));
}

#[test]
fn whole_file_parses() {
    let p = read_puzzle_lines(&lines(&[
        "# a tiny puzzle",
        "",
        "2x2",
        "2",
        "2",
        "2",
        "2",
    ]))
        .expect("a complete file");
    assert_eq!(p.width, 2);
    assert_eq!(p.height, 2);
    assert_eq!(p.rules.row_rules, vec![vec![2u32], vec![2u32]]);
    assert_eq!(p.rules.col_rules, vec![vec![2u32], vec![2u32]]);
    let b2 = p.get_board().autofill(p.get_rules()).expect("fully forced");
    assert_eq!(b2.get(0, 0), Some(Tile::Filled));
    assert_eq!(b2.get(1, 1), Some(Tile::Filled));
}

#[test]
fn file_lines_without_numbers_are_skipped() {
    let p = read_puzzle_lines(&lines(&[
        "stray remark before the dimensions",
        "3x1",
        "1",
        "",
        "1",
        "# done with columns?",
        "1",
        "1",
    ]))
        .expect("blank clue lines do not count");
    assert_eq!(p.width, 3);
    assert_eq!(p.height, 1);
    assert_eq!(p.rules.row_rules, vec![vec![1u32]]);
    assert_eq!(p.rules.col_rules, vec![vec![1u32], vec![1u32], vec![1u32]]);
}

#[test]
fn file_without_dimensions_is_incomplete() {
    assert_eq!(read_err(&["# nothing else"]), PuzzleReaderError::IncompletePuzzle);
}

#[test]
fn file_with_too_few_clues_is_incomplete() {
    assert_eq!(read_err(&["2x2", "1"]), PuzzleReaderError::IncompletePuzzle);
}

#[test]
fn file_with_zero_dimension_is_invalid() {
    assert_eq!(read_err(&["0x5"]), PuzzleReaderError::InvalidDimensions(0, 5));
}

#[test]
fn file_with_malformed_dimensions_is_incomplete() {
    assert_eq!(read_err(&["axb x c"]), PuzzleReaderError::IncompletePuzzle);
}

#[test]
fn file_clue_errors_surface() {
    assert_eq!(read_err(&["2x2", "1 junk"]), PuzzleReaderError::BadNumber);
    assert_eq!(read_err(&["5x5", "3 3"]), PuzzleReaderError::RuleTooLong);
}
