use todo_find::lines::line_breaks;
use todo_find::output::render_matches;
use todo_find::scan::{compile_patterns, scan_text};
use todo_find::template::{parse_template, unescape};

fn bytes(s: &str) -> Vec<u8> {
    s.as_bytes().to_vec()
}

#[test]
fn end_to_end_plain_run() {
    // File contents, one literal pattern, context 1; the whole pipeline.
    let text = bytes("line1\nline2 TODO fix\nline3\n");
    let patterns = compile_patterns(&vec![bytes("TODO")], &Vec::new());
    let found = scan_text(&patterns, &text);
    assert_eq!(found.len(), 1);
    assert_eq!((found[0].start, found[0].end), (12, 16));

    let br = line_breaks(&text);
    let file_raw = unescape(&bytes("== %file% ==\\n"));
    let match_raw = unescape(&bytes("%y%:%context_before%|%before%|%match%|%after%|%context_after%"));
    let mut first_raw = file_raw.clone();
    first_raw.extend_from_slice(&match_raw);
    let first_tpl = parse_template(&first_raw);
    let match_tpl = parse_template(&match_raw);

    let out = render_matches(
        &bytes("a.txt"),
        &text,
        &br,
        &patterns,
        &found,
        &first_tpl,
        &match_tpl,
        1,
        false,
    );
    assert_eq!(out.len(), 1);
    assert_eq!(
        out[0],
        bytes("== a.txt ==\n2:line1|line2 |TODO| fix|line3\n")
    );
}

#[test]
fn file_template_renders_only_before_the_first_match() {
    let text = bytes("x TODO a\ny TODO b\n");
    let patterns = compile_patterns(&vec![bytes("TODO")], &Vec::new());
    let found = scan_text(&patterns, &text);
    assert_eq!(found.len(), 2);

    let br = line_breaks(&text);
    let match_raw = bytes("%y%>");
    let mut first_raw = bytes("F|");
    first_raw.extend_from_slice(&match_raw);
    let first_tpl = parse_template(&first_raw);
    let match_tpl = parse_template(&match_raw);

    let out = render_matches(
        &bytes("f"),
        &text,
        &br,
        &patterns,
        &found,
        &first_tpl,
        &match_tpl,
        3,
        false,
    );
    assert_eq!(out.len(), 2);
    assert_eq!(out[0], bytes("F|1>\n"));
    assert_eq!(out[1], bytes("2>\n"));
}

#[test]
fn indent_width_flows_into_the_x_field() {
    let text = bytes("    alpha\n    TODO beta\n  gamma\n");
    let patterns = compile_patterns(&vec![bytes("TODO")], &Vec::new());
    let found = scan_text(&patterns, &text);
    assert_eq!(found.len(), 1);

    let br = line_breaks(&text);
    let tpl = parse_template(&bytes("%x%:%context_before%|%before%|%context_after%"));
    let out = render_matches(
        &bytes("f"),
        &text,
        &br,
        &patterns,
        &found,
        &tpl,
        &tpl,
        1,
        false,
    );
    // Leading-space counts 4, 4, 2: width 2, one column stripped.
    assert_eq!(out[0], bytes("2:   alpha|   | gamma\n"));
}

#[test]
fn pattern_field_shows_the_compiled_source() {
    // A literal pattern is escaped before compilation, and the escaped
    // source is what the pattern directive shows.
    let text = bytes("see a.b here\n");
    let patterns = compile_patterns(&vec![bytes("a.b")], &Vec::new());
    let found = scan_text(&patterns, &text);
    assert_eq!(found.len(), 1);
    let br = line_breaks(&text);
    let tpl = parse_template(&bytes("%pattern%"));
    let out = render_matches(&bytes("f"), &text, &br, &patterns, &found, &tpl, &tpl, 0, false);
    assert_eq!(out[0], bytes("a\\.b\n"));
}

#[test]
fn line_numbers_past_nine_format_in_decimal() {
    let mut contents = String::new();
    for _ in 0..11 {
        contents.push_str("filler\n");
    }
    contents.push_str("TODO\n");
    let text = contents.into_bytes();
    let patterns = compile_patterns(&vec![bytes("TODO")], &Vec::new());
    let found = scan_text(&patterns, &text);
    let br = line_breaks(&text);
    let tpl = parse_template(&bytes("%y%"));
    let out = render_matches(&bytes("f"), &text, &br, &patterns, &found, &tpl, &tpl, 0, false);
    assert_eq!(out[0], bytes("12\n"));
}
