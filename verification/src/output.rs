//! The per-file pipeline: from one located match to its rendered output.
//!
//! For each match, the context window is carved out of the text, its
//! indentation is normalized, and the window's spans — together with the
//! file's name, the pattern's source, the indentation width `x` and the
//! line number `y`, both in decimal — become the field values a template is
//! rendered against. The first match of a file is rendered with the
//! combined file-and-match template, every later one with the match
//! template alone.

use vstd::prelude::*;

use crate::bytes::dec_digits;
use crate::bytes::usize_to_dec;
use crate::indent::min_indent;
use crate::indent::normalize_indent;
use crate::indent::relevant_lines;
use crate::indent::strip_line;
use crate::indent::stripped;
use crate::lines::break_bound_of;
use crate::lines::breaks_ok;
use crate::lines::ca_spec;
use crate::lines::cb_spec;
use crate::lines::extract_window;
use crate::lines::line_start;
use crate::lines::match_line_end;
use crate::render::FieldValues;
use crate::render::GFields;
use crate::render::plain_render;
use crate::render::render;
use crate::scan::FoundMatch;
use crate::scan::Pattern;
use crate::scan::match_wf;
use crate::template::Segment;
use crate::template::seg_views;
use crate::template::wf_seg;

verus! {

/// The field values for the match `start..end` of `text`: the window's five
/// spans with the indentation policy applied, the file's name, the
/// pattern's source, and the decimal forms of the indentation width and the
/// 1-based line number.
pub open spec fn gfields_of(
    file: Seq<u8>,
    psrc: Seq<u8>,
    text: Seq<u8>,
    br: Seq<usize>,
    start: int,
    end: int,
    c: int,
) -> GFields {
    let cs = break_bound_of(br, start);
    let ce = break_bound_of(br, end);
    let cb = cb_spec(text, br, cs, c);
    let bf = text.subrange(line_start(br, cs), start);
    let mt = text.subrange(start, end);
    let af = text.subrange(end, match_line_end(text, br, ce));
    let ca = ca_spec(text, br, ce, c);
    let m = min_indent(relevant_lines(cb, bf, ca));
    let w = match m {
        Option::None => 0,
        Option::Some(mm) => if mm >= 2 {
            mm
        } else {
            0
        },
    };
    GFields {
        file: file,
        pattern: psrc,
        x: dec_digits(w as nat),
        y: dec_digits((cs + 1) as nat),
        before: if w >= 2 {
            strip_line(bf, w - 1)
        } else {
            bf
        },
        matched: mt,
        after: af,
        context_before: if w >= 2 {
            stripped(cb, w - 1)
        } else {
            cb
        },
        context_after: if w >= 2 {
            stripped(ca, w - 1)
        } else {
            ca
        },
    }
}

/// Builds the field values for one match.
pub fn window_fields(
    file_name: &Vec<u8>,
    pattern_source: &Vec<u8>,
    text: &Vec<u8>,
    br: &Vec<usize>,
    start: usize,
    end: usize,
    c: usize,
) -> (f: FieldValues)
    requires
        breaks_ok(text@, br@),
        start <= end <= text@.len(),
        text@.len() < usize::MAX,
    ensures
        f@ == gfields_of(file_name@, pattern_source@, text@, br@, start as int, end as int, c as int),
{
    let mut w = extract_window(text, br, start, end, c);
    let x = normalize_indent(&mut w);
    let file = crate::bytes::subrange_vec(file_name, 0, file_name.len());
    let pattern = crate::bytes::subrange_vec(pattern_source, 0, pattern_source.len());
    proof {
        assert(file@ =~= file_name@);
        assert(pattern@ =~= pattern_source@);
    }
    let f = FieldValues {
        file,
        pattern,
        x: usize_to_dec(x),
        y: usize_to_dec(w.line_number),
        before: w.before,
        matched: w.matched,
        after: w.after,
        context_before: w.context_before,
        context_after: w.context_after,
    };
    proof {
        assert(f@ =~~= gfields_of(
            file_name@,
            pattern_source@,
            text@,
            br@,
            start as int,
            end as int,
            c as int,
        ));
    }
    f
}

/// Renders every located match of one file, in order: the first through the
/// combined file-and-match template, the rest through the match template.
/// For a plain destination each rendering is pinned exactly; a styled one
/// closes each rendering with a line break.
pub fn render_matches(
    file_name: &Vec<u8>,
    text: &Vec<u8>,
    br: &Vec<usize>,
    patterns: &Vec<Pattern>,
    ms: &Vec<FoundMatch>,
    first_tpl: &Vec<Segment>,
    match_tpl: &Vec<Segment>,
    c: usize,
    styled: bool,
) -> (out: Vec<Vec<u8>>)
    requires
        breaks_ok(text@, br@),
        text@.len() < usize::MAX,
        forall|i: int|
            0 <= i < ms@.len() ==> match_wf(#[trigger] ms@[i], patterns@.len() as int, text@.len() as int),
        forall|t: int| 0 <= t < first_tpl@.len() ==> wf_seg(#[trigger] seg_views(first_tpl@)[t]),
        forall|t: int| 0 <= t < match_tpl@.len() ==> wf_seg(#[trigger] seg_views(match_tpl@)[t]),
    ensures
        out@.len() == ms@.len(),
        forall|k: int|
            0 <= k < ms@.len() && !styled ==> (#[trigger] out@[k])@ == plain_render(
                seg_views(
                    if k == 0 {
                        first_tpl@
                    } else {
                        match_tpl@
                    },
                ),
                gfields_of(
                    file_name@,
                    patterns@[ms@[k].pattern_index as int]@,
                    text@,
                    br@,
                    ms@[k].start as int,
                    ms@[k].end as int,
                    c as int,
                ),
            ),
        forall|k: int| 0 <= k < ms@.len() ==> (#[trigger] out@[k])@.len() >= 1,
{
    let mut out: Vec<Vec<u8>> = Vec::new();
    let mut k: usize = 0;
    while k < ms.len()
        invariant
            k <= ms@.len(),
            out@.len() == k,
            breaks_ok(text@, br@),
            text@.len() < usize::MAX,
            forall|i: int|
                0 <= i < ms@.len() ==> match_wf(
                    #[trigger] ms@[i],
                    patterns@.len() as int,
                    text@.len() as int,
                ),
            forall|t: int| 0 <= t < first_tpl@.len() ==> wf_seg(#[trigger] seg_views(first_tpl@)[t]),
            forall|t: int| 0 <= t < match_tpl@.len() ==> wf_seg(
                #[trigger] seg_views(match_tpl@)[t],
            ),
            forall|j: int|
                0 <= j < k && !styled ==> (#[trigger] out@[j])@ == plain_render(
                    seg_views(
                        if j == 0 {
                            first_tpl@
                        } else {
                            match_tpl@
                        },
                    ),
                    gfields_of(
                        file_name@,
                        patterns@[ms@[j].pattern_index as int]@,
                        text@,
                        br@,
                        ms@[j].start as int,
                        ms@[j].end as int,
                        c as int,
                    ),
                ),
            forall|j: int| 0 <= j < k ==> (#[trigger] out@[j])@.len() >= 1,
        decreases ms@.len() - k,
    {
        let m = &ms[k];
        let f = window_fields(
            file_name,
            patterns[m.pattern_index].source(),
            text,
            br,
            m.start,
            m.end,
            c,
        );
        let rendered = if k == 0 {
            render(first_tpl, &f, styled)
        } else {
            render(match_tpl, &f, styled)
        };
        out.push(rendered);
        k = k + 1;
    }
    out
}

} // verus!
