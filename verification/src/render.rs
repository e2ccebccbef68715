//! Template rendering.
//!
//! A compiled template is rendered against the field values of one match.
//! Walking the segments left to right with a current color and a current
//! style: a directive that names a palette color changes the color, one
//! that names a style keyword (`clear`, `bold`, `italic`, `underline`)
//! changes the style, one that names a field substitutes the field's value,
//! and any other directive passes through as its bare name. Literal runs
//! and substituted values are emitted with whatever color and style are
//! current; a trailing line break closes each rendering. The plan — which
//! text is emitted under which color and style — is exact; whether a styled
//! destination materializes it as escape sequences is the styling
//! collaborator's affair.

use vstd::prelude::*;

use crate::bytes::subrange_vec;
use crate::lines::NL;
use crate::template::GSeg;
use crate::template::Segment;
use crate::template::is_word_byte;
use crate::template::seg_views;
use crate::template::wf_seg;

verus! {

/// The styles the renderer knows.
#[derive(Clone, Copy, PartialEq, Eq, Structural, Debug)]
pub enum Style {
    Clear,
    Bold,
    Italic,
    Underline,
}

/// The values the field directives draw from, for one match in one file.
pub struct FieldValues {
    pub file: Vec<u8>,
    pub pattern: Vec<u8>,
    pub x: Vec<u8>,
    pub y: Vec<u8>,
    pub before: Vec<u8>,
    pub matched: Vec<u8>,
    pub after: Vec<u8>,
    pub context_before: Vec<u8>,
    pub context_after: Vec<u8>,
}

/// The mathematical form of the field values.
#[verifier::ext_equal]
pub struct GFields {
    pub file: Seq<u8>,
    pub pattern: Seq<u8>,
    pub x: Seq<u8>,
    pub y: Seq<u8>,
    pub before: Seq<u8>,
    pub matched: Seq<u8>,
    pub after: Seq<u8>,
    pub context_before: Seq<u8>,
    pub context_after: Seq<u8>,
}

impl View for FieldValues {
    type V = GFields;

    open spec fn view(&self) -> GFields {
        GFields {
            file: self.file@,
            pattern: self.pattern@,
            x: self.x@,
            y: self.y@,
            before: self.before@,
            matched: self.matched@,
            after: self.after@,
            context_before: self.context_before@,
            context_after: self.context_after@,
        }
    }
}

/// Whether a directive names a color of the styling collaborator's palette:
/// a function of the name alone, not redefined here.
pub uninterp spec fn is_color_name(n: Seq<u8>) -> bool;

/// Relies on colored::Color::from_str: it recognizes the palette's color
/// names and rejects anything else; which names it recognizes depends on
/// the name alone, and its fixed list holds none of the style or field
/// keywords, so a recognized color is no keyword. Word characters keep the
/// call away from the parser's hex-color form.
#[verifier::external_body]
fn color_name_check(name: &Vec<u8>) -> (r: bool)
    requires
        forall|j: int| 0 <= j < name@.len() ==> is_word_byte(name@[j]),
    ensures
        r == is_color_name(name@),
        r ==> name@ != kw_clear() && name@ != kw_bold() && name@ != kw_italic() && name@
            != kw_underline() && name@ != kw_file() && name@ != kw_pattern() && name@ != kw_x()
            && name@ != kw_y() && name@ != kw_before() && name@ != kw_match() && name@ != kw_after()
            && name@ != kw_context_before() && name@ != kw_context_after(),
{
    match std::str::from_utf8(name.as_slice()) {
        Ok(s) => <colored::Color as core::str::FromStr>::from_str(s).is_ok(),
        Err(_) => false,
    }
}

/// Relies on colored's Colorize (bold, color) and ColoredString's Display:
/// the text set in bold and the current color, materialized as escape
/// sequences when the process's styling is enabled, or passed through bare
/// when it is not. The choice depends on the environment, so nothing is
/// promised of the bytes.
#[verifier::external_body]
fn paint_bold(text: &Vec<u8>, color_name: &Vec<u8>) -> Vec<u8> {
    let s = match std::str::from_utf8(text.as_slice()) {
        Ok(s) => s,
        Err(_) => return text.clone(),
    };
    match std::str::from_utf8(color_name.as_slice()).ok().and_then(
        |n| <colored::Color as core::str::FromStr>::from_str(n).ok(),
    ) {
        Some(c) => colored::Colorize::color(colored::Colorize::bold(s), c).to_string().into_bytes(),
        None => colored::Colorize::bold(s).to_string().into_bytes(),
    }
}

/// Relies on colored's Colorize (italic, color) and ColoredString's
/// Display, as `paint_bold` does for bold.
#[verifier::external_body]
fn paint_italic(text: &Vec<u8>, color_name: &Vec<u8>) -> Vec<u8> {
    let s = match std::str::from_utf8(text.as_slice()) {
        Ok(s) => s,
        Err(_) => return text.clone(),
    };
    match std::str::from_utf8(color_name.as_slice()).ok().and_then(
        |n| <colored::Color as core::str::FromStr>::from_str(n).ok(),
    ) {
        Some(c) => colored::Colorize::color(colored::Colorize::italic(s), c).to_string().into_bytes(),
        None => colored::Colorize::italic(s).to_string().into_bytes(),
    }
}

/// Relies on colored's Colorize (underline, color) and ColoredString's
/// Display, as `paint_bold` does for bold.
#[verifier::external_body]
fn paint_underline(text: &Vec<u8>, color_name: &Vec<u8>) -> Vec<u8> {
    let s = match std::str::from_utf8(text.as_slice()) {
        Ok(s) => s,
        Err(_) => return text.clone(),
    };
    match std::str::from_utf8(color_name.as_slice()).ok().and_then(
        |n| <colored::Color as core::str::FromStr>::from_str(n).ok(),
    ) {
        Some(c) => colored::Colorize::color(colored::Colorize::underline(s), c).to_string().into_bytes(),
        None => colored::Colorize::underline(s).to_string().into_bytes(),
    }
}

/// Relies on colored's Colorize (clear, color) and ColoredString's Display,
/// as `paint_bold` does for bold.
#[verifier::external_body]
fn paint_clear(text: &Vec<u8>, color_name: &Vec<u8>) -> Vec<u8> {
    let s = match std::str::from_utf8(text.as_slice()) {
        Ok(s) => s,
        Err(_) => return text.clone(),
    };
    match std::str::from_utf8(color_name.as_slice()).ok().and_then(
        |n| <colored::Color as core::str::FromStr>::from_str(n).ok(),
    ) {
        Some(c) => colored::Colorize::color(colored::Colorize::clear(s), c).to_string().into_bytes(),
        None => colored::Colorize::clear(s).to_string().into_bytes(),
    }
}

// The directive keywords, as byte sequences.
/// "clear"
pub open spec fn kw_clear() -> Seq<u8> {
    seq![99u8, 108u8, 101u8, 97u8, 114u8]
}

/// "bold"
pub open spec fn kw_bold() -> Seq<u8> {
    seq![98u8, 111u8, 108u8, 100u8]
}

/// "italic"
pub open spec fn kw_italic() -> Seq<u8> {
    seq![105u8, 116u8, 97u8, 108u8, 105u8, 99u8]
}

/// "underline"
pub open spec fn kw_underline() -> Seq<u8> {
    seq![117u8, 110u8, 100u8, 101u8, 114u8, 108u8, 105u8, 110u8, 101u8]
}

/// "white": the color every rendering starts from.
pub open spec fn white_name() -> Seq<u8> {
    seq![119u8, 104u8, 105u8, 116u8, 101u8]
}

/// "file"
pub open spec fn kw_file() -> Seq<u8> {
    seq![102u8, 105u8, 108u8, 101u8]
}

/// "pattern"
pub open spec fn kw_pattern() -> Seq<u8> {
    seq![112u8, 97u8, 116u8, 116u8, 101u8, 114u8, 110u8]
}

/// "x"
pub open spec fn kw_x() -> Seq<u8> {
    seq![120u8]
}

/// "y"
pub open spec fn kw_y() -> Seq<u8> {
    seq![121u8]
}

/// "before"
pub open spec fn kw_before() -> Seq<u8> {
    seq![98u8, 101u8, 102u8, 111u8, 114u8, 101u8]
}

/// "match"
pub open spec fn kw_match() -> Seq<u8> {
    seq![109u8, 97u8, 116u8, 99u8, 104u8]
}

/// "after"
pub open spec fn kw_after() -> Seq<u8> {
    seq![97u8, 102u8, 116u8, 101u8, 114u8]
}

/// "context_before"
pub open spec fn kw_context_before() -> Seq<u8> {
    seq![99u8, 111u8, 110u8, 116u8, 101u8, 120u8, 116u8, 95u8, 98u8, 101u8, 102u8, 111u8, 114u8, 101u8]
}

/// "context_after"
pub open spec fn kw_context_after() -> Seq<u8> {
    seq![99u8, 111u8, 110u8, 116u8, 101u8, 120u8, 116u8, 95u8, 97u8, 102u8, 116u8, 101u8, 114u8]
}

/// Which style a directive names, if any.
pub open spec fn style_of_name(n: Seq<u8>) -> Option<Style> {
    if n == kw_clear() {
        Option::Some(Style::Clear)
    } else if n == kw_bold() {
        Option::Some(Style::Bold)
    } else if n == kw_italic() {
        Option::Some(Style::Italic)
    } else if n == kw_underline() {
        Option::Some(Style::Underline)
    } else {
        Option::None
    }
}

/// Which field value a directive names, if any.
pub open spec fn field_of_name(n: Seq<u8>, f: GFields) -> Option<Seq<u8>> {
    if n == kw_file() {
        Option::Some(f.file)
    } else if n == kw_pattern() {
        Option::Some(f.pattern)
    } else if n == kw_x() {
        Option::Some(f.x)
    } else if n == kw_y() {
        Option::Some(f.y)
    } else if n == kw_before() {
        Option::Some(f.before)
    } else if n == kw_match() {
        Option::Some(f.matched)
    } else if n == kw_after() {
        Option::Some(f.after)
    } else if n == kw_context_before() {
        Option::Some(f.context_before)
    } else if n == kw_context_after() {
        Option::Some(f.context_after)
    } else {
        Option::None
    }
}

/// One planned emission: a text span under a color and a style.
pub struct Piece {
    pub text: Vec<u8>,
    pub style: Style,
    pub color: Vec<u8>,
}

/// The mathematical form of a piece.
#[verifier::ext_equal]
pub struct GPiece {
    pub text: Seq<u8>,
    pub style: Style,
    pub color: Seq<u8>,
}

impl View for Piece {
    type V = GPiece;

    open spec fn view(&self) -> GPiece {
        GPiece { text: self.text@, style: self.style, color: self.color@ }
    }
}

/// The views of a list of pieces.
pub open spec fn piece_views(vs: Seq<Piece>) -> Seq<GPiece> {
    vs.map_values(|x: Piece| x@)
}

/// The render plan from `segs` on, entered with the given color and style:
/// color directives and style directives update the state and emit nothing;
/// everything else emits one piece under the current state.
pub open spec fn plan_from(segs: Seq<GSeg>, f: GFields, color: Seq<u8>, style: Style) -> Seq<
    GPiece,
>
    decreases segs.len(),
{
    if segs.len() == 0 {
        Seq::empty()
    } else {
        let rest = segs.skip(1);
        match segs[0] {
            GSeg::Lit(t) => seq![GPiece { text: t, style: style, color: color }] + plan_from(
                rest,
                f,
                color,
                style,
            ),
            GSeg::Dir(n) => {
                if is_color_name(n) {
                    plan_from(rest, f, n, style)
                } else {
                    match style_of_name(n) {
                        Option::Some(st) => plan_from(rest, f, color, st),
                        Option::None => {
                            let t = match field_of_name(n, f) {
                                Option::Some(v) => v,
                                Option::None => n,
                            };
                            seq![GPiece { text: t, style: style, color: color }] + plan_from(
                                rest,
                                f,
                                color,
                                style,
                            )
                        },
                    }
                }
            },
        }
    }
}

/// The full plan: rendering starts in white with a clear style.
pub open spec fn plan_spec(segs: Seq<GSeg>, f: GFields) -> Seq<GPiece> {
    plan_from(segs, f, white_name(), Style::Clear)
}

/// A piece whose color name holds word characters only.
pub open spec fn wf_piece(p: GPiece) -> bool {
    forall|j: int| 0 <= j < p.color.len() ==> is_word_byte(p.color[j])
}

fn style_of_name_exec(n: &Vec<u8>) -> (r: Option<Style>)
    ensures
        r == style_of_name(n@),
{
    if n.len() == 5 && n[0] == 99 && n[1] == 108 && n[2] == 101 && n[3] == 97 && n[4] == 114 {
        proof {
            assert(n@ =~= kw_clear());
        }
        Some(Style::Clear)
    } else if n.len() == 4 && n[0] == 98 && n[1] == 111 && n[2] == 108 && n[3] == 100 {
        proof {
            assert(n@ =~= kw_bold());
        }
        Some(Style::Bold)
    } else if n.len() == 6 && n[0] == 105 && n[1] == 116 && n[2] == 97 && n[3] == 108 && n[4] == 105
        && n[5] == 99 {
        proof {
            assert(n@ =~= kw_italic());
        }
        Some(Style::Italic)
    } else if n.len() == 9 && n[0] == 117 && n[1] == 110 && n[2] == 100 && n[3] == 101 && n[4]
        == 114 && n[5] == 108 && n[6] == 105 && n[7] == 110 && n[8] == 101 {
        proof {
            assert(n@ =~= kw_underline());
        }
        Some(Style::Underline)
    } else {
        proof {
            assert(n@ != kw_clear() && n@ != kw_bold() && n@ != kw_italic() && n@
                != kw_underline());
        }
        None
    }
}

fn field_of_name_exec(n: &Vec<u8>, f: &FieldValues) -> (r: Option<Vec<u8>>)
    ensures
        match r {
            Option::Some(v) => field_of_name(n@, f@) == Option::Some(v@),
            Option::None => field_of_name(n@, f@) is None,
        },
{
    if n.len() == 4 && n[0] == 102 && n[1] == 105 && n[2] == 108 && n[3] == 101 {
        proof {
            assert(n@ =~= kw_file());
        }
        Some(subrange_vec(&f.file, 0, f.file.len()))
    } else if n.len() == 7 && n[0] == 112 && n[1] == 97 && n[2] == 116 && n[3] == 116 && n[4]
        == 101 && n[5] == 114 && n[6] == 110 {
        proof {
            assert(n@ =~= kw_pattern());
        }
        Some(subrange_vec(&f.pattern, 0, f.pattern.len()))
    } else if n.len() == 1 && n[0] == 120 {
        proof {
            assert(n@ =~= kw_x());
        }
        Some(subrange_vec(&f.x, 0, f.x.len()))
    } else if n.len() == 1 && n[0] == 121 {
        proof {
            assert(n@ =~= kw_y());
        }
        Some(subrange_vec(&f.y, 0, f.y.len()))
    } else if n.len() == 6 && n[0] == 98 && n[1] == 101 && n[2] == 102 && n[3] == 111 && n[4]
        == 114 && n[5] == 101 {
        proof {
            assert(n@ =~= kw_before());
        }
        Some(subrange_vec(&f.before, 0, f.before.len()))
    } else if n.len() == 5 && n[0] == 109 && n[1] == 97 && n[2] == 116 && n[3] == 99 && n[4]
        == 104 {
        proof {
            assert(n@ =~= kw_match());
        }
        Some(subrange_vec(&f.matched, 0, f.matched.len()))
    } else if n.len() == 5 && n[0] == 97 && n[1] == 102 && n[2] == 116 && n[3] == 101 && n[4]
        == 114 {
        proof {
            assert(n@ =~= kw_after());
        }
        Some(subrange_vec(&f.after, 0, f.after.len()))
    } else if n.len() == 14 && n[0] == 99 && n[1] == 111 && n[2] == 110 && n[3] == 116 && n[4]
        == 101 && n[5] == 120 && n[6] == 116 && n[7] == 95 && n[8] == 98 && n[9] == 101 && n[10]
        == 102 && n[11] == 111 && n[12] == 114 && n[13] == 101 {
        proof {
            assert(n@ =~= kw_context_before());
        }
        Some(subrange_vec(&f.context_before, 0, f.context_before.len()))
    } else if n.len() == 13 && n[0] == 99 && n[1] == 111 && n[2] == 110 && n[3] == 116 && n[4]
        == 101 && n[5] == 120 && n[6] == 116 && n[7] == 95 && n[8] == 97 && n[9] == 102 && n[10]
        == 116 && n[11] == 101 && n[12] == 114 {
        proof {
            assert(n@ =~= kw_context_after());
        }
        Some(subrange_vec(&f.context_after, 0, f.context_after.len()))
    } else {
        proof {
            assert(n@ != kw_file() && n@ != kw_pattern() && n@ != kw_x() && n@ != kw_y() && n@
                != kw_before() && n@ != kw_match() && n@ != kw_after() && n@ != kw_context_before()
                && n@ != kw_context_after());
        }
        None
    }
}

/// Builds the render plan for one template instantiation, starting from a
/// white, clear state.
pub fn build_plan(segs: &Vec<Segment>, f: &FieldValues) -> (plan: Vec<Piece>)
    requires
        forall|t: int| 0 <= t < segs@.len() ==> wf_seg(#[trigger] seg_views(segs@)[t]),
    ensures
        piece_views(plan@) == plan_spec(seg_views(segs@), f@),
        forall|t: int| 0 <= t < plan@.len() ==> wf_piece(#[trigger] piece_views(plan@)[t]),
{
    let ghost sv = seg_views(segs@);
    let mut plan: Vec<Piece> = Vec::new();
    let mut color: Vec<u8> = Vec::new();
    color.push(119);
    color.push(104);
    color.push(105);
    color.push(116);
    color.push(101);
    proof {
        assert(color@ =~= white_name());
    }
    let mut style = Style::Clear;
    let mut i: usize = 0;
    proof {
        assert(sv.skip(0) =~= sv);
    }
    while i < segs.len()
        invariant
            0 <= i <= segs@.len() == sv.len(),
            sv == seg_views(segs@),
            forall|t: int| 0 <= t < segs@.len() ==> wf_seg(#[trigger] seg_views(segs@)[t]),
            plan_spec(sv, f@) == piece_views(plan@) + plan_from(
                sv.skip(i as int),
                f@,
                color@,
                style,
            ),
            forall|j: int| 0 <= j < color@.len() ==> is_word_byte(color@[j]),
            forall|t: int| 0 <= t < plan@.len() ==> wf_piece(#[trigger] piece_views(plan@)[t]),
        decreases segs@.len() - i,
    {
        proof {
            assert(sv.skip(i as int)[0] == sv[i as int]);
            assert(sv.skip(i as int).skip(1) =~~= sv.skip(i + 1));
            assert(wf_seg(sv[i as int]));
        }
        let ghost old_plan = plan@;
        let ghost old_color = color@;
        let ghost old_style = style;
        match &segs[i] {
            Segment::Literal(t) => {
                proof {
                    assert(sv[i as int] == GSeg::Lit(t@));
                }
                let text = subrange_vec(t, 0, t.len());
                let col = subrange_vec(&color, 0, color.len());
                plan.push(Piece { text, style, color: col });
                proof {
                    let gp = GPiece { text: t@, style: style, color: color@ };
                    assert(piece_views(plan@) =~~= piece_views(old_plan).push(gp));
                    assert(plan_from(sv.skip(i as int), f@, color@, style) == seq![gp] + plan_from(
                        sv.skip(i + 1),
                        f@,
                        color@,
                        style,
                    ));
                    assert(piece_views(old_plan) + (seq![gp] + plan_from(
                        sv.skip(i + 1),
                        f@,
                        color@,
                        style,
                    )) =~~= piece_views(plan@) + plan_from(sv.skip(i + 1), f@, color@, style));
                }
            },
            Segment::Directive(n) => {
                proof {
                    assert(sv[i as int] == GSeg::Dir(n@));
                }
                if color_name_check(n) {
                    color = subrange_vec(n, 0, n.len());
                    proof {
                        assert(color@ =~= n@);
                        assert(plan_from(sv.skip(i as int), f@, old_color, style) == plan_from(
                            sv.skip(i + 1),
                            f@,
                            color@,
                            style,
                        ));
                    }
                } else {
                    match style_of_name_exec(n) {
                        Option::Some(st) => {
                            style = st;
                            proof {
                                assert(plan_from(sv.skip(i as int), f@, color@, old_style) == plan_from(
                                    sv.skip(i + 1),
                                    f@,
                                    color@,
                                    style,
                                ));
                            }
                        },
                        Option::None => {
                            let text = match field_of_name_exec(n, f) {
                                Option::Some(v) => v,
                                Option::None => {
                                    let copy = subrange_vec(n, 0, n.len());
                                    proof {
                                        assert(copy@ =~= n@);
                                    }
                                    copy
                                },
                            };
                            let col = subrange_vec(&color, 0, color.len());
                            let ghost gtext = text@;
                            plan.push(Piece { text, style, color: col });
                            proof {
                                let gp = GPiece { text: gtext, style: style, color: color@ };
                                assert(piece_views(plan@) =~~= piece_views(old_plan).push(gp));
                                assert(plan_from(sv.skip(i as int), f@, color@, style) == seq![gp]
                                    + plan_from(sv.skip(i + 1), f@, color@, style));
                                assert(piece_views(old_plan) + (seq![gp] + plan_from(
                                    sv.skip(i + 1),
                                    f@,
                                    color@,
                                    style,
                                )) =~~= piece_views(plan@) + plan_from(
                                    sv.skip(i + 1),
                                    f@,
                                    color@,
                                    style,
                                ));
                            }
                        },
                    }
                }
            },
        }
        i = i + 1;
    }
    proof {
        assert(sv.skip(i as int) =~~= Seq::<GSeg>::empty());
        assert(piece_views(plan@) =~~= plan_spec(sv, f@));
    }
    plan
}

/// The pieces' texts, in order.
pub open spec fn concat_texts(pieces: Seq<GPiece>) -> Seq<u8>
    decreases pieces.len(),
{
    if pieces.len() == 0 {
        Seq::empty()
    } else {
        pieces[0].text + concat_texts(pieces.skip(1))
    }
}

/// What a plain destination shows for one template instantiation: the
/// emitted texts, bare, closed by a line break. Styling is discarded.
pub open spec fn plain_render(segs: Seq<GSeg>, f: GFields) -> Seq<u8> {
    concat_texts(plan_spec(segs, f)) + seq![NL]
}

/// Emits the plan for a plain destination: the texts, nothing else.
pub fn emit_plain(plan: &Vec<Piece>) -> (out: Vec<u8>)
    ensures
        out@ == concat_texts(piece_views(plan@)) + seq![NL],
{
    let ghost pv = piece_views(plan@);
    let mut out: Vec<u8> = Vec::new();
    let mut i: usize = 0;
    proof {
        assert(pv.skip(0) =~~= pv);
    }
    while i < plan.len()
        invariant
            0 <= i <= plan@.len() == pv.len(),
            pv == piece_views(plan@),
            concat_texts(pv) == out@ + concat_texts(pv.skip(i as int)),
        decreases plan@.len() - i,
    {
        proof {
            assert(pv.skip(i as int)[0] == pv[i as int]);
            assert(pv.skip(i as int).skip(1) =~~= pv.skip(i + 1));
        }
        out.extend_from_slice(plan[i].text.as_slice());
        i = i + 1;
    }
    proof {
        assert(pv.skip(i as int) =~~= Seq::<GPiece>::empty());
        assert(concat_texts(pv.skip(i as int)) =~= Seq::<u8>::empty());
        assert(out@ =~= concat_texts(pv));
    }
    out.push(NL);
    out
}

/// Emits the plan for a styled destination: each piece goes through the
/// styling collaborator under its color and style; the closing line break
/// stays bare. What the collaborator materializes depends on the
/// environment, so only the closing break is promised.
pub fn emit_styled(plan: &Vec<Piece>) -> (out: Vec<u8>)
    requires
        forall|t: int| 0 <= t < plan@.len() ==> wf_piece(#[trigger] piece_views(plan@)[t]),
    ensures
        out@.len() >= 1,
        out@.last() == NL,
{
    let mut out: Vec<u8> = Vec::new();
    let mut i: usize = 0;
    while i < plan.len()
        invariant
            0 <= i <= plan@.len(),
            forall|t: int| 0 <= t < plan@.len() ==> wf_piece(#[trigger] piece_views(plan@)[t]),
        decreases plan@.len() - i,
    {
        let p = &plan[i];
        proof {
            assert(wf_piece(piece_views(plan@)[i as int]));
            assert(piece_views(plan@)[i as int] == plan@[i as int]@);
        }
        let painted = match p.style {
            Style::Clear => paint_clear(&p.text, &p.color),
            Style::Bold => paint_bold(&p.text, &p.color),
            Style::Italic => paint_italic(&p.text, &p.color),
            Style::Underline => paint_underline(&p.text, &p.color),
        };
        out.extend_from_slice(painted.as_slice());
        i = i + 1;
    }
    out.push(NL);
    out
}

/// Renders one template instantiation. A plain destination gets exactly
/// the planned texts, closed by a line break; a styled one gets each piece
/// through the styling collaborator.
pub fn render(segs: &Vec<Segment>, f: &FieldValues, styled: bool) -> (out: Vec<u8>)
    requires
        forall|t: int| 0 <= t < segs@.len() ==> wf_seg(#[trigger] seg_views(segs@)[t]),
    ensures
        !styled ==> out@ == plain_render(seg_views(segs@), f@),
        out@.len() >= 1 && out@.last() == NL,
{
    let plan = build_plan(segs, f);
    if styled {
        emit_styled(&plan)
    } else {
        emit_plain(&plan)
    }
}

} // verus!
