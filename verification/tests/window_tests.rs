use todo_find::lines::{extract_window, line_breaks};
use todo_find::output::window_fields;

fn bytes(s: &str) -> Vec<u8> {
    s.as_bytes().to_vec()
}

#[test]
fn line_breaks_records_every_newline() {
    let br = line_breaks(&bytes("a\nbb\n\nc"));
    assert_eq!(br, vec![1, 4, 5]);
    assert_eq!(line_breaks(&bytes("")), Vec::<usize>::new());
    assert_eq!(line_breaks(&bytes("abc")), Vec::<usize>::new());
}

#[test]
fn window_around_middle_match() {
    // The end-to-end window scenario: pattern TODO on line 2, context 1.
    let text = bytes("line1\nline2 TODO fix\nline3\n");
    let br = line_breaks(&text);
    let w = extract_window(&text, &br, 12, 16, 1);
    assert_eq!(w.context_before, bytes("line1"));
    assert_eq!(w.before, bytes("line2 "));
    assert_eq!(w.matched, bytes("TODO"));
    assert_eq!(w.after, bytes(" fix"));
    assert_eq!(w.context_after, bytes("line3"));
    assert_eq!(w.line_number, 2);
}

#[test]
fn window_on_first_line_clips_at_start() {
    let text = bytes("TODO here\nsecond\n");
    let br = line_breaks(&text);
    let w = extract_window(&text, &br, 0, 4, 3);
    assert_eq!(w.context_before, bytes(""));
    assert_eq!(w.before, bytes(""));
    assert_eq!(w.matched, bytes("TODO"));
    assert_eq!(w.after, bytes(" here"));
    assert_eq!(w.context_after, bytes("second\n"));
    assert_eq!(w.line_number, 1);
}

#[test]
fn window_on_unterminated_last_line_clips_at_end() {
    let text = bytes("first\nTODO");
    let br = line_breaks(&text);
    let w = extract_window(&text, &br, 6, 10, 2);
    assert_eq!(w.context_before, bytes("first"));
    assert_eq!(w.before, bytes(""));
    assert_eq!(w.matched, bytes("TODO"));
    assert_eq!(w.after, bytes(""));
    assert_eq!(w.context_after, bytes(""));
    assert_eq!(w.line_number, 2);
}

#[test]
fn window_holds_exactly_min_lines_each_side() {
    // Five lines, match on line 2, context 3: exactly min(3, 1) = 1 line
    // above and min(3, 5 - 2) = 3 lines below, although the file is short.
    let text = bytes("l1\nl2 X\nl3\nl4\nl5\n");
    let br = line_breaks(&text);
    let start = 6; // the X on line 2
    let w = extract_window(&text, &br, start, start + 1, 3);
    assert_eq!(w.context_before, bytes("l1"));
    assert_eq!(w.context_after, bytes("l3\nl4\nl5"));
    assert_eq!(w.line_number, 2);
}

#[test]
fn window_with_zero_context_has_no_context_lines() {
    let text = bytes("l1\nl2 X\nl3\n");
    let br = line_breaks(&text);
    let w = extract_window(&text, &br, 6, 7, 0);
    assert_eq!(w.context_before, bytes(""));
    assert_eq!(w.before, bytes("l2 "));
    assert_eq!(w.after, bytes(""));
    assert_eq!(w.context_after, bytes(""));
}

#[test]
fn window_fields_carry_line_number_and_width() {
    let text = bytes("line1\nline2 TODO fix\nline3\n");
    let br = line_breaks(&text);
    let f = window_fields(&bytes("a.txt"), &bytes("TODO"), &text, &br, 12, 16, 1);
    assert_eq!(f.file, bytes("a.txt"));
    assert_eq!(f.pattern, bytes("TODO"));
    assert_eq!(f.x, bytes("0"));
    assert_eq!(f.y, bytes("2"));
    assert_eq!(f.context_before, bytes("line1"));
    assert_eq!(f.before, bytes("line2 "));
    assert_eq!(f.matched, bytes("TODO"));
    assert_eq!(f.after, bytes(" fix"));
    assert_eq!(f.context_after, bytes("line3"));
}
