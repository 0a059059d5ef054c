use breakgen::fragment::ParseError;
use breakgen::pattern::{Note, Pattern};

fn note(pos: usize, len: usize, key: u8) -> Note {
    Note { key, len, pos }
}

#[test]
fn parse_skips_malformed_rows() {
    let p = Pattern::from_csv("1,2,3\nbad\n4,5,6").unwrap();
    assert_eq!(p.notes, vec![note(1, 2, 3), note(4, 5, 6)]);
    assert_eq!(p.drums, 3);
}

#[test]
fn parse_rejects_non_numeric_field() {
    assert_eq!(Pattern::from_csv("x,2,3").unwrap_err(), ParseError::BadNumber);
    assert_eq!(Pattern::from_csv("1,2,3\n4,y,6").unwrap_err(), ParseError::BadNumber);
}

#[test]
fn parse_rejects_key_over_eight_bits() {
    assert_eq!(Pattern::from_csv("1,2,300").unwrap_err(), ParseError::BadNumber);
    assert_eq!(Pattern::from_csv("1,2,255").unwrap().notes, vec![note(1, 2, 255)]);
}

#[test]
fn parse_ignores_trailing_fields() {
    let p = Pattern::from_csv("10,20,1,extra,more\n0,5,2").unwrap();
    assert_eq!(p.notes, vec![note(10, 20, 1), note(0, 5, 2)]);
}

#[test]
fn parse_skips_short_rows() {
    let p = Pattern::from_csv("1,2\n7\n3,4,5\n").unwrap();
    assert_eq!(p.notes, vec![note(3, 4, 5)]);
}

#[test]
fn parse_empty_text() {
    let p = Pattern::from_csv("").unwrap();
    assert!(p.notes.is_empty());
}

#[test]
fn parse_accepts_plus_sign_and_rejects_blanks() {
    assert_eq!(Pattern::from_csv("+1,2,3").unwrap().notes, vec![note(1, 2, 3)]);
    assert_eq!(Pattern::from_csv("1, 2,3").unwrap_err(), ParseError::BadNumber);
    assert_eq!(Pattern::from_csv("-1,2,3").unwrap_err(), ParseError::BadNumber);
}

#[test]
fn new_pattern_is_empty() {
    let p = Pattern::new();
    assert!(p.notes.is_empty());
    assert_eq!(p.drums, 3);
    assert_eq!(p.length(), 0);
}

#[test]
fn length_sums_position_and_length() {
    let p = Pattern::from_csv("0,60,1\n30,90,2\n5,0,0").unwrap();
    assert_eq!(p.length(), 60 + 120 + 5);
}

#[test]
fn capped_length_saturates() {
    let p = Pattern { notes: vec![note(usize::MAX, 1, 0)], drums: 3 };
    assert_eq!(p.capped_length(), usize::MAX);
}

#[test]
fn parse_rejects_quotes() {
    assert_eq!(Pattern::from_csv("1,2,\"3\"").unwrap_err(), ParseError::QuotedField);
    assert_eq!(Pattern::from_csv("1,2,\"").unwrap_err(), ParseError::QuotedField);
}

#[test]
fn from_rows_reads_fields() {
    let row = |fs: &[&str]| Some(fs.iter().map(|f| f.to_string()).collect::<Vec<String>>());
    let rows = vec![row(&["7", "8", "9"]), None, row(&["1"]), row(&["0", "4", "2", "x"])];
    let p = Pattern::from_rows(&rows).unwrap();
    assert_eq!(p.notes, vec![note(7, 8, 9), note(0, 4, 2)]);
    let bad = vec![row(&["1", "2", "3"]), row(&["1", "2", "k"])];
    assert_eq!(Pattern::from_rows(&bad).unwrap_err(), ParseError::BadNumber);
}
