use todo_find::indent::{leading_ws_count, normalize_indent, split_lines, join_lines};
use todo_find::lines::ContextWindow;

fn bytes(s: &str) -> Vec<u8> {
    s.as_bytes().to_vec()
}

fn window(cb: &str, before: &str, matched: &str, after: &str, ca: &str) -> ContextWindow {
    ContextWindow {
        context_before: bytes(cb),
        before: bytes(before),
        matched: bytes(matched),
        after: bytes(after),
        context_after: bytes(ca),
        line_number: 1,
    }
}

#[test]
fn minimum_two_strips_one_column() {
    // Leading-space counts 4, 4 and 2: the width is 2, and every collected
    // line loses exactly one leading space, not two.
    let mut w = window("    alpha\n    beta", "  gam", "X", "", "");
    let x = normalize_indent(&mut w);
    assert_eq!(x, 2);
    assert_eq!(w.context_before, bytes("   alpha\n   beta"));
    assert_eq!(w.before, bytes(" gam"));
}

#[test]
fn minimum_below_two_strips_nothing() {
    // Counts 1 and 0: the reported width is 0 and no byte is removed.
    let mut w = window(" a\nb", "", "X", "", "");
    let x = normalize_indent(&mut w);
    assert_eq!(x, 0);
    assert_eq!(w.context_before, bytes(" a\nb"));
    assert_eq!(w.before, bytes(""));
}

#[test]
fn no_nonempty_line_strips_nothing() {
    let mut w = window("", "", "X", "", "");
    let x = normalize_indent(&mut w);
    assert_eq!(x, 0);
    assert_eq!(w.context_before, bytes(""));
    assert_eq!(w.context_after, bytes(""));
}

#[test]
fn empty_lines_are_not_counted_and_not_stripped() {
    let mut w = window("    a\n\n   b", "", "X", "", "   c");
    let x = normalize_indent(&mut w);
    assert_eq!(x, 3);
    assert_eq!(w.context_before, bytes("  a\n\n b"));
    assert_eq!(w.context_after, bytes(" c"));
}

#[test]
fn matched_and_after_never_change() {
    let mut w = window("    a", "    b", "  M  ", "  tail", "    c");
    let x = normalize_indent(&mut w);
    assert_eq!(x, 4);
    assert_eq!(w.matched, bytes("  M  "));
    assert_eq!(w.after, bytes("  tail"));
}

#[test]
fn tabs_count_as_whitespace() {
    let mut w = window("\t\ta", "\t\tb", "X", "", "");
    let x = normalize_indent(&mut w);
    assert_eq!(x, 2);
    assert_eq!(w.context_before, bytes("\ta"));
}

#[test]
fn leading_ws_count_measures_the_prefix() {
    assert_eq!(leading_ws_count(&bytes("   a ")), 3);
    assert_eq!(leading_ws_count(&bytes("a")), 0);
    assert_eq!(leading_ws_count(&bytes("")), 0);
    assert_eq!(leading_ws_count(&bytes("\t x")), 2);
}

#[test]
fn split_and_join_roundtrip() {
    let v = bytes("a\n\nbc\n");
    let parts = split_lines(&v);
    assert_eq!(parts, vec![bytes("a"), bytes(""), bytes("bc"), bytes("")]);
    assert_eq!(join_lines(&parts), v);
}
