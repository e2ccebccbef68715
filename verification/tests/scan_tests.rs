use todo_find::scan::{compile_literal, compile_raw, compile_patterns, scan_all, scan_text};

fn bytes(s: &str) -> Vec<u8> {
    s.as_bytes().to_vec()
}

#[test]
fn literal_scan_finds_all_non_overlapping() {
    let p = compile_literal(&bytes("a")).expect("a literal compiles");
    let ms = scan_all(&p, &bytes("aaa"));
    assert_eq!(ms, vec![(0, 1), (1, 2), (2, 3)]);
}

#[test]
fn zero_width_pattern_terminates_with_increasing_offsets() {
    let p = compile_raw(&bytes("x*")).expect("x* compiles");
    let ms = scan_all(&p, &bytes("abc"));
    assert!(!ms.is_empty());
    for w in ms.windows(2) {
        assert!(w[0].0 < w[1].0, "starts must strictly increase");
        assert!(w[0].1 <= w[1].0, "matches must not overlap");
    }
}

#[test]
fn zero_width_pattern_on_empty_text_terminates() {
    let p = compile_raw(&bytes("")).expect("empty pattern compiles");
    let ms = scan_all(&p, &bytes(""));
    assert!(ms.len() <= 1);
}

#[test]
fn matches_group_by_pattern_not_by_position() {
    let strings = vec![bytes("b"), bytes("a")];
    let patterns = compile_patterns(&strings, &Vec::new());
    assert_eq!(patterns.len(), 2);
    let found = scan_text(&patterns, &bytes("ab"));
    assert_eq!(found.len(), 2);
    // Pattern 0 ("b") is reported first although "a" occurs earlier.
    assert_eq!(found[0].pattern_index, 0);
    assert_eq!((found[0].start, found[0].end), (1, 2));
    assert_eq!(found[1].pattern_index, 1);
    assert_eq!((found[1].start, found[1].end), (0, 1));
}

#[test]
fn literal_patterns_are_escaped() {
    let p = compile_literal(&bytes("a.b")).expect("a.b compiles");
    assert_eq!(p.source(), &bytes("a\\.b"));
    assert!(scan_all(&p, &bytes("axb")).is_empty());
    assert_eq!(scan_all(&p, &bytes("a.b")), vec![(0, 3)]);
}

#[test]
fn raw_pattern_keeps_regex_meaning() {
    let p = compile_raw(&bytes("a.b")).expect("a.b compiles");
    assert_eq!(p.source(), &bytes("a.b"));
    assert_eq!(scan_all(&p, &bytes("axb")), vec![(0, 3)]);
}

#[test]
fn bad_regex_is_dropped_silently() {
    assert!(compile_raw(&bytes("(")).is_none());
    let patterns = compile_patterns(&vec![bytes("ok")], &vec![bytes("(")]);
    assert_eq!(patterns.len(), 1);
}

#[test]
fn overlapping_candidates_yield_non_overlapping_matches() {
    let p = compile_literal(&bytes("aa")).expect("aa compiles");
    let ms = scan_all(&p, &bytes("aaaa"));
    assert_eq!(ms, vec![(0, 2), (2, 4)]);
}
