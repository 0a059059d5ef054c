use breakgen::generator::{assemble, load_fragments, GenerationError, TICKS_PER_BEAT};
use breakgen::pattern::{Note, Pattern};

fn lib(texts: &[&str]) -> Option<Vec<String>> {
    Some(texts.iter().map(|t| t.to_string()).collect())
}

fn frag(text: &str) -> Pattern {
    Pattern::from_csv(text).unwrap()
}

#[test]
fn generate_zero_length_draws_nothing() {
    let p = Pattern::generate(lib(&["1,2,3"]), 0).unwrap();
    assert!(p.notes.is_empty());
    assert_eq!(p.length(), 0);
}

#[test]
fn generate_reaches_target() {
    let p = Pattern::generate(lib(&["0,60,1\n0,60,2", "10,50,0"]), 4).unwrap();
    assert!(p.length() >= 4 * 120);
    // Every fragment is 120 ticks long, so drawing stops at exactly the target.
    assert_eq!(p.length(), 480);
}

#[test]
fn generate_concatenates_whole_fragments() {
    let p = Pattern::generate(lib(&["0,60,1\n0,60,2"]), 3).unwrap();
    let one = frag("0,60,1\n0,60,2").notes;
    let mut expected: Vec<Note> = Vec::new();
    for _ in 0..3 {
        expected.extend(one.iter().copied());
    }
    assert_eq!(p.notes, expected);
}

#[test]
fn generate_only_empty_fragments_fails() {
    assert_eq!(Pattern::generate(lib(&[""]), 2).unwrap_err(), GenerationError::AllFragmentsEmpty);
    assert_eq!(
        Pattern::generate(lib(&["0,0,1", "\n"]), 1).unwrap_err(),
        GenerationError::AllFragmentsEmpty
    );
}

#[test]
fn generate_skips_empty_fragments() {
    let p = Pattern::generate(lib(&["", "0,0,4", "0,240,1"]), 8).unwrap();
    assert_eq!(p.length(), 960);
    assert!(p.notes.iter().all(|n| n.key == 1));
}

#[test]
fn generate_missing_library() {
    assert_eq!(Pattern::generate(None, 4).unwrap_err(), GenerationError::LibraryMissing);
}

#[test]
fn generate_empty_library() {
    assert_eq!(Pattern::generate(lib(&[]), 4).unwrap_err(), GenerationError::NoFragments);
    assert_eq!(Pattern::generate(lib(&["x,1,2"]), 4).unwrap_err(), GenerationError::NoFragments);
}

#[test]
fn generate_twice_keeps_bound() {
    let library = lib(&["0,100,1", "20,30,2\n0,10,0", "5,5,5"]);
    for _ in 0..2 {
        let p = Pattern::generate(library.clone(), 16).unwrap();
        assert!(p.length() >= 16 * TICKS_PER_BEAT);
    }
}

#[test]
fn load_fragments_keeps_parsed_texts() {
    let texts: Vec<String> = vec!["1,2,3".to_string(), "x,1,1".to_string(), "".to_string()];
    let frags = load_fragments(&texts);
    assert_eq!(frags.len(), 2);
    assert_eq!(frags[0].notes, frag("1,2,3").notes);
    assert!(frags[1].notes.is_empty());
}

#[test]
fn take_draw_evicts_empty_fragment() {
    let mut candidates = vec![frag("1,1,1"), frag(""), frag("2,2,2")];
    let mut p = Pattern::new();
    assert_eq!(p.take_draw(&mut candidates, 4), 0);
    assert_eq!(candidates.len(), 2);
    assert_eq!(candidates[1].notes, frag("2,2,2").notes);
    assert!(p.notes.is_empty());
}

#[test]
fn take_draw_appends_fragment() {
    let mut candidates = vec![frag("1,1,1"), frag("2,3,2\n0,1,0")];
    let mut p = frag("9,9,9");
    assert_eq!(p.take_draw(&mut candidates, 3), 6);
    assert_eq!(candidates.len(), 2);
    assert_eq!(p.notes, frag("9,9,9\n2,3,2\n0,1,0").notes);
}

#[test]
fn assemble_without_fragments() {
    assert_eq!(assemble(Vec::new(), 10).unwrap_err(), GenerationError::NoFragments);
}

#[test]
fn assemble_zero_target_with_empty_fragment() {
    let p = assemble(vec![frag("")], 0).unwrap();
    assert!(p.notes.is_empty());
}
