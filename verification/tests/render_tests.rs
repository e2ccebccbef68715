use colored::Colorize;
use todo_find::render::FieldValues;
use todo_find::render::render;
use todo_find::template::parse_template;

fn bytes(s: &str) -> Vec<u8> {
    s.as_bytes().to_vec()
}

fn fields() -> FieldValues {
    FieldValues {
        file: bytes("dir/a.txt"),
        pattern: bytes("TODO"),
        x: bytes("0"),
        y: bytes("2"),
        before: bytes("line2 "),
        matched: bytes("TODO"),
        after: bytes(" fix"),
        context_before: bytes("line1"),
        context_after: bytes("line3"),
    }
}

#[test]
fn plain_render_drops_styling() {
    // A plain destination materializes no escape bytes at all.
    let tpl = parse_template(&bytes("%bold%%match%%clear%after"));
    let f = FieldValues { matched: bytes("TODO"), ..fields() };
    let out = render(&tpl, &f, false);
    assert_eq!(out, bytes("TODOafter\n"));
}

#[test]
fn styled_render_brackets_the_pieces() {
    colored::control::set_override(true);
    let tpl = parse_template(&bytes("%bold%%match%%clear%after"));
    let f = FieldValues { matched: bytes("TODO"), ..fields() };
    let out = render(&tpl, &f, true);
    let mut want = "TODO".bold().color(colored::Color::White).to_string();
    want.push_str(&"after".clear().color(colored::Color::White).to_string());
    want.push('\n');
    assert_eq!(out, want.into_bytes());
    colored::control::unset_override();
}

#[test]
fn color_directive_changes_later_text_only() {
    colored::control::set_override(true);
    let tpl = parse_template(&bytes("a%blue%b"));
    let out = render(&tpl, &fields(), true);
    let mut want = "a".clear().color(colored::Color::White).to_string();
    want.push_str(&"b".clear().color(colored::Color::Blue).to_string());
    want.push('\n');
    assert_eq!(out, want.into_bytes());
    colored::control::unset_override();
}

#[test]
fn unknown_directive_renders_as_bare_name() {
    let tpl = parse_template(&bytes("%zzz%"));
    let out = render(&tpl, &fields(), false);
    assert_eq!(out, bytes("zzz\n"));
}

#[test]
fn color_and_style_directives_emit_nothing_plain() {
    let tpl = parse_template(&bytes("%blue%@@ %x%,%y% @@"));
    let out = render(&tpl, &fields(), false);
    assert_eq!(out, bytes("@@ 0,2 @@\n"));
}

#[test]
fn every_field_directive_substitutes_its_value() {
    let tpl = parse_template(&bytes(
        "%file%|%pattern%|%x%|%y%|%before%|%match%|%after%|%context_before%|%context_after%",
    ));
    let out = render(&tpl, &fields(), false);
    assert_eq!(
        out,
        bytes("dir/a.txt|TODO|0|2|line2 |TODO| fix|line1|line3\n")
    );
}

#[test]
fn unrecognized_color_like_name_falls_through_to_text() {
    // "purple" is in the palette; "blurple" is not and passes through.
    let tpl = parse_template(&bytes("%blurple%"));
    let out = render(&tpl, &fields(), false);
    assert_eq!(out, bytes("blurple\n"));
}

#[test]
fn style_state_persists_within_one_rendering() {
    colored::control::set_override(true);
    let tpl = parse_template(&bytes("%bold%ab"));
    let out = render(&tpl, &fields(), true);
    let mut want = "ab".bold().color(colored::Color::White).to_string();
    want.push('\n');
    assert_eq!(out, want.into_bytes());
    colored::control::unset_override();
}
