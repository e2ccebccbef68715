//! Template strings.
//!
//! A raw template is preprocessed once: the escape sequences `\n`, `\r`,
//! `\t`, `\-` and `\\` are resolved by `unescape`. The result is then
//! compiled by `parse_template` into an ordered list of segments, each a
//! literal run or a directive. A directive is a percent sign, one or more
//! word characters (letters, digits, underscore), and a closing percent
//! sign; a percent sign that opens no such directive passes through as
//! literal text.

use vstd::prelude::*;

use crate::bytes::subrange_vec;

verus! {

/// The backslash byte.
pub const BSL: u8 = 92;

/// The percent-sign byte.
pub const PCT: u8 = 37;

/// What resolving the escape sequences yields: `\n`, `\r`, `\t` become the
/// control characters, `\-` a bare dash, `\\` a single backslash; a
/// backslash before anything else, or at the end, stays as it is.
pub open spec fn unescape_spec(s: Seq<u8>) -> Seq<u8>
    decreases s.len(),
{
    if s.len() == 0 {
        Seq::empty()
    } else if s[0] != BSL {
        seq![s[0]] + unescape_spec(s.skip(1))
    } else if s.len() == 1 {
        seq![BSL]
    } else if s[1] == 110 {  // n
        seq![10u8] + unescape_spec(s.skip(2))
    } else if s[1] == 114 {  // r
        seq![13u8] + unescape_spec(s.skip(2))
    } else if s[1] == 116 {  // t
        seq![9u8] + unescape_spec(s.skip(2))
    } else if s[1] == 45 {  // -
        seq![45u8] + unescape_spec(s.skip(2))
    } else if s[1] == BSL {
        seq![BSL] + unescape_spec(s.skip(2))
    } else {
        seq![BSL] + unescape_spec(s.skip(1))
    }
}

/// Resolves the escape sequences of a raw template string.
pub fn unescape(input: &Vec<u8>) -> (r: Vec<u8>)
    ensures
        r@ == unescape_spec(input@),
{
    let ghost s = input@;
    let mut r: Vec<u8> = Vec::new();
    let mut i: usize = 0;
    proof {
        assert(s.skip(0) =~= s);
    }
    while i < input.len()
        invariant
            0 <= i <= s.len(),
            input@ == s,
            unescape_spec(s) == r@ + unescape_spec(s.skip(i as int)),
        decreases s.len() - i,
    {
        let ghost rem = s.skip(i as int);
        proof {
            assert(rem[0] == s[i as int]);
            assert(rem.skip(1) =~= s.skip(i + 1));
            if rem.len() >= 2 {
                assert(rem[1] == s[i + 1]);
                assert(rem.skip(2) =~= s.skip(i + 2));
            }
        }
        let b = input[i];
        if b != BSL {
            r.push(b);
            i = i + 1;
        } else if i + 1 < input.len() {
            let c = input[i + 1];
            if c == 110 {
                r.push(10);
                i = i + 2;
            } else if c == 114 {
                r.push(13);
                i = i + 2;
            } else if c == 116 {
                r.push(9);
                i = i + 2;
            } else if c == 45 {
                r.push(45);
                i = i + 2;
            } else if c == BSL {
                r.push(BSL);
                i = i + 2;
            } else {
                r.push(BSL);
                i = i + 1;
            }
        } else {
            r.push(BSL);
            i = i + 1;
        }
        proof {
            assert(unescape_spec(s) == r@ + unescape_spec(s.skip(i as int)));
        }
    }
    proof {
        assert(s.skip(i as int) =~= Seq::<u8>::empty());
    }
    r
}

/// Letters, digits and the underscore: what may stand inside a directive.
pub open spec fn is_word_byte(b: u8) -> bool {
    b == 95 || (48 <= b <= 57) || (65 <= b <= 90) || (97 <= b <= 122)
}

fn is_word(b: u8) -> (r: bool)
    ensures
        r == is_word_byte(b),
{
    b == 95 || (48 <= b && b <= 57) || (65 <= b && b <= 90) || (97 <= b && b <= 122)
}

/// The end of the run of word bytes that starts at `i`.
pub open spec fn word_run_end(s: Seq<u8>, i: int) -> int
    decreases s.len() - i,
{
    if i < 0 || i >= s.len() {
        s.len() as int
    } else if is_word_byte(s[i]) {
        word_run_end(s, i + 1)
    } else {
        i
    }
}

pub proof fn lemma_word_run_end(s: Seq<u8>, i: int)
    requires
        0 <= i <= s.len(),
    ensures
        i <= word_run_end(s, i) <= s.len(),
        forall|j: int| i <= j < word_run_end(s, i) ==> is_word_byte(s[j]),
        word_run_end(s, i) < s.len() ==> !is_word_byte(s[word_run_end(s, i)]),
    decreases s.len() - i,
{
    if i < s.len() && is_word_byte(s[i]) {
        lemma_word_run_end(s, i + 1);
    }
}

/// A run of word bytes ends at the first byte that is not one.
pub proof fn lemma_word_run_end_is(s: Seq<u8>, i: int, m: int)
    requires
        0 <= i <= m <= s.len(),
        forall|j: int| i <= j < m ==> is_word_byte(s[j]),
        m == s.len() || !is_word_byte(s[m]),
    ensures
        word_run_end(s, i) == m,
    decreases m - i,
{
    if i < m {
        lemma_word_run_end_is(s, i + 1, m);
    }
}

/// A directive opens at `i`: a percent sign, at least one word byte, and a
/// closing percent sign.
pub open spec fn directive_at(s: Seq<u8>, i: int) -> bool {
    let j = word_run_end(s, i + 1);
    &&& 0 <= i < s.len()
    &&& s[i] == PCT
    &&& j > i + 1
    &&& j < s.len()
    &&& s[j] == PCT
}

/// The first position at or after `i` where a directive opens, or the end.
pub open spec fn next_dir(s: Seq<u8>, i: int) -> int
    decreases s.len() - i,
{
    if i < 0 || i >= s.len() {
        s.len() as int
    } else if directive_at(s, i) {
        i
    } else {
        next_dir(s, i + 1)
    }
}

pub proof fn lemma_next_dir(s: Seq<u8>, i: int)
    requires
        0 <= i <= s.len(),
    ensures
        i <= next_dir(s, i) <= s.len(),
        forall|j: int| i <= j < next_dir(s, i) ==> !directive_at(s, j),
        next_dir(s, i) < s.len() ==> directive_at(s, next_dir(s, i)),
    decreases s.len() - i,
{
    if i < s.len() && !directive_at(s, i) {
        lemma_next_dir(s, i + 1);
    }
}

/// The scan stops at the first position where a directive opens.
pub proof fn lemma_next_dir_is(s: Seq<u8>, i: int, m: int)
    requires
        0 <= i <= m <= s.len(),
        forall|j: int| i <= j < m ==> !directive_at(s, j),
        m == s.len() || directive_at(s, m),
    ensures
        next_dir(s, i) == m,
    decreases m - i,
{
    if i < m {
        lemma_next_dir_is(s, i + 1, m);
    }
}

/// A compiled template segment: a literal run, or a directive's name.
pub enum Segment {
    Literal(Vec<u8>),
    Directive(Vec<u8>),
}

/// The mathematical form of a segment.
#[verifier::ext_equal]
pub enum GSeg {
    Lit(Seq<u8>),
    Dir(Seq<u8>),
}

impl View for Segment {
    type V = GSeg;

    open spec fn view(&self) -> GSeg {
        match self {
            Segment::Literal(v) => GSeg::Lit(v@),
            Segment::Directive(v) => GSeg::Dir(v@),
        }
    }
}

/// The views of a list of segments.
pub open spec fn seg_views(vs: Seq<Segment>) -> Seq<GSeg> {
    vs.map_values(|x: Segment| x@)
}

/// A well-formed segment: literals are non-empty, directive names are
/// non-empty runs of word bytes.
pub open spec fn wf_seg(g: GSeg) -> bool {
    match g {
        GSeg::Lit(l) => l.len() > 0,
        GSeg::Dir(n) => n.len() > 0 && forall|j: int| 0 <= j < n.len() ==> is_word_byte(n[j]),
    }
}

/// The segments of `s` from position `i` on: literal text up to the next
/// directive, the directive's name, and so on; the text after the last
/// directive is one final literal.
pub open spec fn parse_from(s: Seq<u8>, i: int) -> Seq<GSeg>
    decreases s.len() - i,
    via parse_from_dec
{
    if i < 0 || i >= s.len() {
        Seq::empty()
    } else {
        let d = next_dir(s, i);
        if d >= s.len() {
            seq![GSeg::Lit(s.subrange(i, s.len() as int))]
        } else {
            let j = word_run_end(s, d + 1);
            let dir = seq![GSeg::Dir(s.subrange(d + 1, j))];
            let pre = if d > i {
                seq![GSeg::Lit(s.subrange(i, d))]
            } else {
                Seq::<GSeg>::empty()
            };
            pre + dir + parse_from(s, j + 1)
        }
    }
}

#[via_fn]
proof fn parse_from_dec(s: Seq<u8>, i: int) {
    if 0 <= i < s.len() {
        lemma_next_dir(s, i);
    }
}

/// The whole template, compiled.
pub open spec fn parse_spec(s: Seq<u8>) -> Seq<GSeg> {
    parse_from(s, 0)
}

/// Every parsed segment is well formed.
pub proof fn lemma_parse_from_wf(s: Seq<u8>, i: int)
    requires
        0 <= i,
    ensures
        forall|t: int| 0 <= t < parse_from(s, i).len() ==> wf_seg(#[trigger] parse_from(s, i)[t]),
    decreases s.len() - i,
{
    if i < s.len() {
        let d = next_dir(s, i);
        lemma_next_dir(s, i);
        if d < s.len() {
            let j = word_run_end(s, d + 1);
            lemma_word_run_end(s, d + 1);
            lemma_parse_from_wf(s, j + 1);
            let pre = if d > i {
                seq![GSeg::Lit(s.subrange(i, d))]
            } else {
                Seq::<GSeg>::empty()
            };
            let dir = seq![GSeg::Dir(s.subrange(d + 1, j))];
            assert(wf_seg(dir[0]));
            assert forall|t: int| 0 <= t < parse_from(s, i).len() implies wf_seg(
                #[trigger] parse_from(s, i)[t],
            ) by {
                let whole = pre + dir + parse_from(s, j + 1);
                if t >= pre.len() + 1 {
                    assert(whole[t] == parse_from(s, j + 1)[t - pre.len() - 1]);
                }
            }
        }
    }
}

/// Compiles a template into its segments.
pub fn parse_template(input: &Vec<u8>) -> (segs: Vec<Segment>)
    ensures
        seg_views(segs@) == parse_spec(input@),
        forall|t: int| 0 <= t < segs@.len() ==> wf_seg(#[trigger] seg_views(segs@)[t]),
{
    let ghost s = input@;
    let n = input.len();
    let mut out: Vec<Segment> = Vec::new();
    let mut lit_start: usize = 0;
    let mut i: usize = 0;
    while i < n
        invariant
            0 <= lit_start <= i <= n == s.len(),
            input@ == s,
            parse_spec(s) == seg_views(out@) + parse_from(s, lit_start as int),
            forall|k: int| lit_start <= k < i ==> !directive_at(s, k),
        decreases n - i,
    {
        let mut advance: usize = 1;
        if input[i] == PCT {
            let mut j = i + 1;
            while j < n && is_word(input[j])
                invariant
                    i + 1 <= j <= n == s.len(),
                    input@ == s,
                    forall|t: int| i + 1 <= t < j ==> is_word_byte(s[t]),
                decreases n - j,
            {
                j = j + 1;
            }
            proof {
                lemma_word_run_end_is(s, i + 1, j as int);
            }
            if j > i + 1 && j < n && input[j] == PCT {
                proof {
                    assert(directive_at(s, i as int));
                    lemma_next_dir_is(s, lit_start as int, i as int);
                    assert(parse_from(s, lit_start as int) == (if i > lit_start {
                        seq![GSeg::Lit(s.subrange(lit_start as int, i as int))]
                    } else {
                        Seq::<GSeg>::empty()
                    }) + seq![GSeg::Dir(s.subrange(i + 1, j as int))] + parse_from(s, j + 1));
                }
                if i > lit_start {
                    let lit = subrange_vec(input, lit_start, i);
                    let ghost old_out = out@;
                    out.push(Segment::Literal(lit));
                    proof {
                        assert(seg_views(out@) =~= seg_views(old_out).push(
                            GSeg::Lit(s.subrange(lit_start as int, i as int)),
                        ));
                    }
                }
                let name = subrange_vec(input, i + 1, j);
                let ghost old_out2 = out@;
                out.push(Segment::Directive(name));
                proof {
                    assert(seg_views(out@) =~= seg_views(old_out2).push(
                        GSeg::Dir(s.subrange(i + 1, j as int)),
                    ));
                    assert(parse_spec(s) =~= seg_views(out@) + parse_from(s, j + 1));
                }
                lit_start = j + 1;
                advance = j + 1 - i;
            }
        }
        i = i + advance;
    }
    proof {
        if lit_start < n {
            lemma_next_dir_is(s, lit_start as int, s.len() as int);
        }
    }
    if lit_start < n {
        let lit = subrange_vec(input, lit_start, n);
        let ghost old_out = out@;
        out.push(Segment::Literal(lit));
        proof {
            assert(seg_views(out@) =~= seg_views(old_out).push(
                GSeg::Lit(s.subrange(lit_start as int, s.len() as int)),
            ));
            assert(parse_spec(s) =~= seg_views(out@));
        }
    } else {
        proof {
            assert(parse_from(s, lit_start as int) =~= Seq::<GSeg>::empty());
            assert(parse_spec(s) =~= seg_views(out@));
        }
    }
    proof {
        lemma_parse_from_wf(s, 0);
    }
    out
}

} // verus!
