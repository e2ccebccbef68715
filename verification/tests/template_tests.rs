use todo_find::template::{unescape, parse_template, Segment};

fn bytes(s: &str) -> Vec<u8> {
    s.as_bytes().to_vec()
}

fn lit(s: &str) -> Segment {
    Segment::Literal(bytes(s))
}

fn dir(s: &str) -> Segment {
    Segment::Directive(bytes(s))
}

fn seg_eq(a: &Segment, b: &Segment) -> bool {
    match (a, b) {
        (Segment::Literal(x), Segment::Literal(y)) => x == y,
        (Segment::Directive(x), Segment::Directive(y)) => x == y,
        _ => false,
    }
}

fn assert_segs(got: &[Segment], want: &[Segment]) {
    assert_eq!(got.len(), want.len(), "segment counts differ");
    for (g, w) in got.iter().zip(want.iter()) {
        assert!(seg_eq(g, w), "segments differ");
    }
}

#[test]
fn unescape_resolves_the_five_sequences() {
    assert_eq!(unescape(&bytes("a\\nb")), bytes("a\nb"));
    assert_eq!(unescape(&bytes("a\\rb")), bytes("a\rb"));
    assert_eq!(unescape(&bytes("a\\tb")), bytes("a\tb"));
    assert_eq!(unescape(&bytes("a\\-b")), bytes("a-b"));
    assert_eq!(unescape(&bytes("a\\\\nb")), bytes("a\\nb"));
}

#[test]
fn unescape_keeps_unknown_escapes_and_trailing_backslash() {
    assert_eq!(unescape(&bytes("a\\qb")), bytes("a\\qb"));
    assert_eq!(unescape(&bytes("ab\\")), bytes("ab\\"));
    assert_eq!(unescape(&bytes("")), bytes(""));
    assert_eq!(unescape(&bytes("plain")), bytes("plain"));
}

#[test]
fn parse_splits_literals_and_directives() {
    let segs = parse_template(&bytes("%bold%%match%%clear%after"));
    assert_segs(&segs, &[dir("bold"), dir("match"), dir("clear"), lit("after")]);
}

#[test]
fn parse_keeps_text_around_directives() {
    let segs = parse_template(&bytes("a%zzz%b"));
    assert_segs(&segs, &[lit("a"), dir("zzz"), lit("b")]);
}

#[test]
fn lone_percent_signs_pass_through() {
    assert_segs(&parse_template(&bytes("100%")), &[lit("100%")]);
    assert_segs(&parse_template(&bytes("%")), &[lit("%")]);
    assert_segs(&parse_template(&bytes("a%%b")), &[lit("a%%b")]);
}

#[test]
fn double_percent_before_directive_keeps_one() {
    let segs = parse_template(&bytes("%%bold%"));
    assert_segs(&segs, &[lit("%"), dir("bold")]);
}

#[test]
fn directive_names_take_word_characters_only() {
    assert_segs(&parse_template(&bytes("%a_1%")), &[dir("a_1")]);
    assert_segs(&parse_template(&bytes("%a b%")), &[lit("%a b%")]);
    assert_segs(&parse_template(&bytes("")), &[]);
}
