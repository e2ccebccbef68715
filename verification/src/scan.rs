//! Patterns and the match scanner.
//!
//! A pattern is a compiled regular expression together with the source text
//! it was compiled from; literal patterns are escaped before compilation, a
//! string that fails to compile is dropped. The fields are private, so
//! every pattern pairs a regex with exactly the source it was compiled
//! from, and what the matcher finds is a function of that source, the text
//! and the position alone. `scan_all` enumerates every non-overlapping
//! match of one pattern across a text buffer — exactly the greedy sequence
//! of "find next match at or after this offset" probes, where a zero-width
//! match advances the offset past the match's start so that scanning always
//! terminates. `scan_text` runs the scanner once per pattern and
//! concatenates the results, grouped by pattern, not re-sorted by position.

use vstd::prelude::*;

use crate::indent::views;

verus! {

#[verifier::external_type_specification]
#[verifier::external_body]
pub struct ExRegex(fancy_regex::Regex);

/// What `fancy_regex::escape` returns: a pattern that matches the input
/// text literally, a function of that text alone.
pub uninterp spec fn regex_escaped(s: Seq<u8>) -> Seq<u8>;

/// Whether `fancy_regex::Regex::new` accepts a pattern: a function of the
/// pattern text alone.
pub uninterp spec fn regex_compiles(src: Seq<u8>) -> bool;

/// What `fancy_regex::Regex::find_from_pos` finds — the first match of the
/// compiled pattern at or after a byte position: a function of the
/// pattern's source, the text and the position alone.
pub uninterp spec fn find_of(src: Seq<u8>, text: Seq<u8>, pos: int) -> Option<(usize, usize)>;

/// Relies on fancy_regex::escape: the escaped pattern depends on the input
/// text alone. Text that is not valid UTF-8 is returned unchanged.
#[verifier::external_body]
fn regex_escape(source: &Vec<u8>) -> (r: Vec<u8>)
    ensures
        r@ == regex_escaped(source@),
{
    match std::str::from_utf8(source.as_slice()) {
        Ok(s) => fancy_regex::escape(s).into_owned().into_bytes(),
        Err(_) => source.clone(),
    }
}

/// Relies on fancy_regex::Regex::new: it compiles the pattern or reports an
/// error, and which patterns it accepts depends on the pattern text alone.
/// Text that is not valid UTF-8 is treated as failing to compile.
#[verifier::external_body]
fn regex_new(source: &Vec<u8>) -> (r: Option<fancy_regex::Regex>)
    ensures
        r is Some <==> regex_compiles(source@),
{
    match std::str::from_utf8(source.as_slice()) {
        Ok(s) => fancy_regex::Regex::new(s).ok(),
        Err(_) => None,
    }
}

/// `i` does not point into the middle of a UTF-8 code point (for a buffer
/// that holds valid UTF-8): it is an edge, or the byte there is no
/// continuation byte.
pub open spec fn is_boundary(text: Seq<u8>, i: int) -> bool {
    i == 0 || i >= text.len() || !(128 <= text[i] < 192)
}

/// A compiled pattern and the source text it was compiled from. The fields
/// are private: only the compile functions below pair them, so the regex
/// always belongs to the source.
pub struct Pattern {
    regex: fancy_regex::Regex,
    source: Vec<u8>,
}

impl View for Pattern {
    type V = Seq<u8>;

    /// A pattern is abstracted by its source text.
    closed spec fn view(&self) -> Seq<u8> {
        self.source@
    }
}

impl Pattern {
    /// The source text the pattern was compiled from.
    pub fn source(&self) -> (r: &Vec<u8>)
        ensures
            r@ == self@,
    {
        &self.source
    }
}

/// Relies on fancy_regex::Regex::find_from_pos: it returns the first match
/// of the pattern at or after the byte position — a function of the
/// pattern's source, the text and the position alone — whose offsets lie
/// within the text and on character boundaries; a position past the end
/// yields no match. An error from the matcher, or text that is not valid
/// UTF-8, is treated as no further match.
#[verifier::external_body]
fn regex_find_from(p: &Pattern, text: &Vec<u8>, pos: usize) -> (r: Option<(usize, usize)>)
    requires
        pos <= text@.len(),
        is_boundary(text@, pos as int),
    ensures
        r == find_of(p@, text@, pos as int),
        match r {
            Option::Some(m) => pos <= m.0 <= m.1 <= text@.len() && is_boundary(text@, m.0 as int)
                && is_boundary(text@, m.1 as int),
            Option::None => true,
        },
{
    let s = match std::str::from_utf8(text.as_slice()) {
        Ok(s) => s,
        Err(_) => return None,
    };
    match p.regex.find_from_pos(s, pos) {
        Ok(Some(m)) => Some((m.start(), m.end())),
        _ => None,
    }
}

/// Compiles a literal string into a pattern that matches it verbatim:
/// it succeeds exactly when the matcher accepts the escaped text, and the
/// pattern's source is that escaped text.
pub fn compile_literal(source: &Vec<u8>) -> (r: Option<Pattern>)
    ensures
        r is Some <==> regex_compiles(regex_escaped(source@)),
        match r {
            Option::Some(p) => p@ == regex_escaped(source@),
            Option::None => true,
        },
{
    let escaped = regex_escape(source);
    match regex_new(&escaped) {
        Option::Some(re) => Some(Pattern { regex: re, source: escaped }),
        Option::None => None,
    }
}

/// Compiles a regular-expression string: it succeeds exactly when the
/// matcher accepts the text, and the pattern's source is that text.
pub fn compile_raw(source: &Vec<u8>) -> (r: Option<Pattern>)
    ensures
        r is Some <==> regex_compiles(source@),
        match r {
            Option::Some(p) => p@ == source@,
            Option::None => true,
        },
{
    match regex_new(source) {
        Option::Some(re) => {
            let mut copy: Vec<u8> = Vec::new();
            copy.extend_from_slice(source.as_slice());
            proof {
                assert(copy@ =~= source@);
            }
            Some(Pattern { regex: re, source: copy })
        },
        Option::None => None,
    }
}

/// The first boundary past `i`, or the buffer's end.
pub open spec fn next_boundary_of(text: Seq<u8>, i: int) -> int
    decreases text.len() - i,
{
    if i + 1 >= text.len() {
        text.len() as int
    } else if 128 <= text[i + 1] < 192 {
        next_boundary_of(text, i + 1)
    } else {
        i + 1
    }
}

/// The first boundary past `i` is the first non-continuation byte.
proof fn lemma_next_boundary_is(text: Seq<u8>, i: int, k: int)
    requires
        0 <= i < k <= text.len(),
        forall|t: int| i < t < k ==> 128 <= #[trigger] text[t] < 192,
        k == text.len() || !(128 <= text[k] < 192),
    ensures
        next_boundary_of(text, i) == k,
    decreases k - i,
{
    if i + 1 < k {
        lemma_next_boundary_is(text, i + 1, k);
    }
}

/// The first boundary past `i`.
fn next_boundary(text: &Vec<u8>, i: usize) -> (k: usize)
    requires
        i < text@.len(),
    ensures
        i < k <= text@.len(),
        is_boundary(text@, k as int),
        k == next_boundary_of(text@, i as int),
{
    let n = text.len();
    let mut k = i + 1;
    while k < n && 128 <= text[k] && text[k] < 192
        invariant
            n == text@.len(),
            i < k <= text@.len(),
            forall|t: int| i < t < k ==> 128 <= #[trigger] text@[t] < 192,
        decreases text@.len() - k,
    {
        k = k + 1;
    }
    proof {
        lemma_next_boundary_is(text@, i as int, k as int);
    }
    k
}

/// Where scanning resumes after the match `m`: at the match's end, or —
/// for a zero-width match — one character past its start; a zero-width
/// match at the buffer's very end leaves nothing to probe, and scanning
/// is over.
pub open spec fn scan_resume(text: Seq<u8>, m: (usize, usize)) -> int {
    if m.1 > m.0 {
        m.1 as int
    } else if (m.0 as int) < text.len() {
        next_boundary_of(text, m.0 as int)
    } else {
        text.len() as int + 1
    }
}

/// The greedy scan of one pattern from position `pos` on: probe the
/// matcher, keep what it finds, resume past it, stop when it finds nothing
/// or nothing is left to probe.
pub open spec fn scan_spec(src: Seq<u8>, text: Seq<u8>, pos: int) -> Seq<(usize, usize)>
    decreases text.len() + 1 - pos,
{
    if pos < 0 || pos > text.len() {
        Seq::empty()
    } else {
        match find_of(src, text, pos) {
            Option::None => Seq::empty(),
            Option::Some(m) => {
                let next = scan_resume(text, m);
                if pos < next <= text.len() + 1 {
                    seq![m] + scan_spec(src, text, next)
                } else {
                    seq![m]
                }
            },
        }
    }
}

/// All matches of one pattern across `text`, as half-open byte ranges:
/// exactly the greedy iteration of the matcher from offset 0, so no match
/// at or after a probed offset is missed; in increasing position, pairwise
/// non-overlapping, within the buffer. The resume offset grows at every
/// step, so the scan terminates even on zero-width matches.
pub fn scan_all(p: &Pattern, text: &Vec<u8>) -> (ms: Vec<(usize, usize)>)
    ensures
        ms@ == scan_spec(p@, text@, 0),
        forall|i: int| 0 <= i < ms@.len() ==> (#[trigger] ms@[i]).0 <= ms@[i].1 <= text@.len(),
        forall|i: int, j: int|
            0 <= i < j < ms@.len() ==> (#[trigger] ms@[i]).1 <= (#[trigger] ms@[j]).0
                && ms@[i].0 < ms@[j].0,
{
    let mut ms: Vec<(usize, usize)> = Vec::new();
    let mut loc: usize = 0;
    let mut go: bool = true;
    proof {
        assert(Seq::<(usize, usize)>::empty() + scan_spec(p@, text@, 0) =~= scan_spec(
            p@,
            text@,
            0,
        ));
    }
    while go
        invariant
            loc <= text@.len(),
            is_boundary(text@, loc as int),
            go ==> scan_spec(p@, text@, 0) == ms@ + scan_spec(p@, text@, loc as int),
            !go ==> scan_spec(p@, text@, 0) == ms@,
            forall|i: int| 0 <= i < ms@.len() ==> (#[trigger] ms@[i]).0 <= ms@[i].1 <= text@.len(),
            go ==> forall|i: int|
                0 <= i < ms@.len() ==> (#[trigger] ms@[i]).0 < loc && ms@[i].1 <= loc,
            forall|i: int, j: int|
                0 <= i < j < ms@.len() ==> (#[trigger] ms@[i]).1 <= (#[trigger] ms@[j]).0
                    && ms@[i].0 < ms@[j].0,
        decreases
                text@.len() - loc + (if go {
                    1int
                } else {
                    0int
                }),
    {
        let ghost old_ms = ms@;
        match regex_find_from(p, text, loc) {
            Option::Some(m) => {
                ms.push(m);
                if m.1 > m.0 {
                    proof {
                        assert(scan_spec(p@, text@, loc as int) == seq![m] + scan_spec(
                            p@,
                            text@,
                            m.1 as int,
                        ));
                        assert(old_ms + (seq![m] + scan_spec(p@, text@, m.1 as int)) =~= ms@
                            + scan_spec(p@, text@, m.1 as int));
                    }
                    loc = m.1;
                } else if m.0 < text.len() {
                    // A zero-width match: step past its start, or scanning
                    // would ask at the same offset forever.
                    let nb = next_boundary(text, m.0);
                    proof {
                        assert(scan_resume(text@, m) == nb);
                        assert(scan_spec(p@, text@, loc as int) == seq![m] + scan_spec(
                            p@,
                            text@,
                            nb as int,
                        ));
                        assert(old_ms + (seq![m] + scan_spec(p@, text@, nb as int)) =~= ms@
                            + scan_spec(p@, text@, nb as int));
                    }
                    loc = nb;
                } else {
                    // A zero-width match at the very end: nothing follows.
                    proof {
                        assert(scan_resume(text@, m) == text@.len() + 1);
                        assert(scan_spec(p@, text@, loc as int) == seq![m] + scan_spec(
                            p@,
                            text@,
                            text@.len() as int + 1,
                        ));
                        assert(scan_spec(p@, text@, text@.len() as int + 1) =~= Seq::<(
                            usize,
                            usize,
                        )>::empty());
                        assert(old_ms + (seq![m] + Seq::<(usize, usize)>::empty()) =~= ms@);
                    }
                    go = false;
                }
            },
            Option::None => {
                proof {
                    assert(scan_spec(p@, text@, loc as int) =~= Seq::<(usize, usize)>::empty());
                    assert(old_ms + Seq::<(usize, usize)>::empty() =~= ms@);
                }
                go = false;
            },
        }
    }
    ms
}

/// One located occurrence: which pattern matched, and where.
pub struct FoundMatch {
    pub pattern_index: usize,
    pub start: usize,
    pub end: usize,
}

/// `m` lies within `text` and names a pattern of the set.
pub open spec fn match_wf(m: FoundMatch, n_patterns: int, text_len: int) -> bool {
    m.pattern_index < n_patterns && m.start <= m.end <= text_len
}

/// The sources of a pattern set, in order.
pub open spec fn sources_of(ps: Seq<Pattern>) -> Seq<Seq<u8>> {
    ps.map_values(|p: Pattern| p@)
}

/// One pattern's matches, each tagged with that pattern's index.
pub open spec fn tagged(ms: Seq<(usize, usize)>, i: int) -> Seq<FoundMatch> {
    ms.map_values(
        |m: (usize, usize)| FoundMatch { pattern_index: i as usize, start: m.0, end: m.1 },
    )
}

/// The whole scan of a pattern set: each pattern's greedy scan in the set's
/// order, tagged with its index, concatenated.
pub open spec fn scan_text_spec(srcs: Seq<Seq<u8>>, text: Seq<u8>, i: int) -> Seq<FoundMatch>
    decreases srcs.len() - i,
{
    if i < 0 || i >= srcs.len() {
        Seq::empty()
    } else {
        tagged(scan_spec(srcs[i], text, 0), i) + scan_text_spec(srcs, text, i + 1)
    }
}

/// All matches of every pattern across `text`: exactly the concatenation,
/// in the set's order, of each pattern's greedy scan, each entry tagged
/// with its pattern's index. So the result is grouped by pattern — every
/// match of an earlier pattern stands before any match of a later one,
/// even one that occurs earlier in the text — and within one pattern the
/// matches are in increasing position and non-overlapping.
pub fn scan_text(patterns: &Vec<Pattern>, text: &Vec<u8>) -> (r: Vec<FoundMatch>)
    ensures
        r@ == scan_text_spec(sources_of(patterns@), text@, 0),
        forall|i: int|
            0 <= i < r@.len() ==> match_wf(#[trigger] r@[i], patterns@.len() as int, text@.len() as int),
        forall|i: int, j: int|
            0 <= i < j < r@.len() ==> (#[trigger] r@[i]).pattern_index <= (#[trigger] r@[j]).pattern_index,
        forall|i: int, j: int|
            0 <= i < j < r@.len() && (#[trigger] r@[i]).pattern_index == (#[trigger] r@[j]).pattern_index
                ==> r@[i].end <= r@[j].start && r@[i].start < r@[j].start,
{
    let ghost srcs = sources_of(patterns@);
    let mut r: Vec<FoundMatch> = Vec::new();
    let mut pi: usize = 0;
    proof {
        assert(Seq::<FoundMatch>::empty() + scan_text_spec(srcs, text@, 0) =~= scan_text_spec(
            srcs,
            text@,
            0,
        ));
    }
    while pi < patterns.len()
        invariant
            pi <= patterns@.len(),
            srcs == sources_of(patterns@),
            scan_text_spec(srcs, text@, 0) == r@ + scan_text_spec(srcs, text@, pi as int),
            forall|i: int|
                0 <= i < r@.len() ==> match_wf(
                    #[trigger] r@[i],
                    patterns@.len() as int,
                    text@.len() as int,
                ),
            forall|i: int| 0 <= i < r@.len() ==> (#[trigger] r@[i]).pattern_index < pi,
            forall|i: int, j: int|
                0 <= i < j < r@.len() ==> (#[trigger] r@[i]).pattern_index
                    <= (#[trigger] r@[j]).pattern_index,
            forall|i: int, j: int|
                0 <= i < j < r@.len() && (#[trigger] r@[i]).pattern_index
                    == (#[trigger] r@[j]).pattern_index ==> r@[i].end <= r@[j].start && r@[i].start
                    < r@[j].start,
        decreases patterns@.len() - pi,
    {
        let ms = scan_all(&patterns[pi], text);
        proof {
            assert(srcs[pi as int] == patterns@[pi as int]@);
            assert(scan_text_spec(srcs, text@, pi as int) == tagged(ms@, pi as int)
                + scan_text_spec(srcs, text@, pi + 1));
        }
        let ghost r_start = r@;
        let mut k: usize = 0;
        while k < ms.len()
            invariant
                pi < patterns@.len(),
                k <= ms@.len(),
                k <= r@.len(),
                r@ == r_start + tagged(ms@, pi as int).subrange(0, k as int),
                forall|i: int| 0 <= i < ms@.len() ==> (#[trigger] ms@[i]).0 <= ms@[i].1
                    <= text@.len(),
                forall|i: int, j: int|
                    0 <= i < j < ms@.len() ==> (#[trigger] ms@[i]).1 <= (#[trigger] ms@[j]).0
                        && ms@[i].0 < ms@[j].0,
                forall|i: int|
                    0 <= i < r@.len() ==> match_wf(
                        #[trigger] r@[i],
                        patterns@.len() as int,
                        text@.len() as int,
                    ),
                forall|i: int| 0 <= i < r@.len() ==> (#[trigger] r@[i]).pattern_index <= pi,
                // Everything before the block for the current pattern names
                // an earlier pattern.
                forall|i: int|
                    0 <= i < r@.len() - k ==> (#[trigger] r@[i]).pattern_index < pi,
                forall|i: int, j: int|
                    0 <= i < j < r@.len() ==> (#[trigger] r@[i]).pattern_index
                        <= (#[trigger] r@[j]).pattern_index,
                forall|i: int, j: int|
                    0 <= i < j < r@.len() && (#[trigger] r@[i]).pattern_index
                        == (#[trigger] r@[j]).pattern_index ==> r@[i].end <= r@[j].start
                        && r@[i].start < r@[j].start,
                // The block for the current pattern mirrors a prefix of `ms`.
                forall|t: int|
                    0 <= t < k ==> (#[trigger] r@[r@.len() - k + t]).pattern_index == pi
                        && r@[r@.len() - k + t].start == ms@[t].0 && r@[r@.len() - k + t].end
                        == ms@[t].1,
            decreases ms@.len() - k,
        {
            let m = ms[k];
            let ghost old_r = r@;
            r.push(FoundMatch { pattern_index: pi, start: m.0, end: m.1 });
            k = k + 1;
            proof {
                assert(tagged(ms@, pi as int)[k - 1] == FoundMatch {
                    pattern_index: pi,
                    start: ms@[k - 1].0,
                    end: ms@[k - 1].1,
                });
                assert(r@ =~= r_start + tagged(ms@, pi as int).subrange(0, k as int));
                assert forall|t: int|
                    0 <= t < k implies (#[trigger] r@[r@.len() - k + t]).pattern_index == pi
                        && r@[r@.len() - k + t].start == ms@[t].0 && r@[r@.len() - k + t].end
                        == ms@[t].1 by {
                    if t < k - 1 {
                        assert(r@[r@.len() - k + t] == old_r[old_r.len() - (k - 1) + t]);
                    } else {
                        assert(r@[r@.len() - 1].pattern_index == pi);
                    }
                }
                assert forall|i: int, j: int|
                    0 <= i < j < r@.len() && (#[trigger] r@[i]).pattern_index == (
                    #[trigger] r@[j]).pattern_index implies r@[i].end <= r@[j].start && r@[i].start
                    < r@[j].start by {
                    if j == r@.len() - 1 && r@[i].pattern_index == pi {
                        let t = i - (old_r.len() - (k - 1));
                        assert(0 <= t < k - 1) by {
                            if i < old_r.len() - (k - 1) {
                                assert(old_r[i].pattern_index < pi);
                            }
                        }
                        assert(r@[i] == old_r[old_r.len() - (k - 1) + t]);
                        assert(ms@[t].1 <= ms@[k - 1].0 && ms@[t].0 < ms@[k - 1].0);
                    }
                }
            }
        }
        proof {
            assert(tagged(ms@, pi as int).subrange(0, ms@.len() as int) =~= tagged(
                ms@,
                pi as int,
            ));
            assert(r_start + tagged(ms@, pi as int) + scan_text_spec(srcs, text@, pi + 1) =~= r@
                + scan_text_spec(srcs, text@, pi + 1));
        }
        pi = pi + 1;
    }
    proof {
        assert(scan_text_spec(srcs, text@, pi as int) =~= Seq::<FoundMatch>::empty());
        assert(r@ + Seq::<FoundMatch>::empty() =~= r@);
    }
    r
}

/// The sources that survive compiling the literal strings: each escaped,
/// kept exactly when the matcher accepts its escaped form, in order.
pub open spec fn kept_literals(strs: Seq<Seq<u8>>) -> Seq<Seq<u8>>
    decreases strs.len(),
{
    if strs.len() == 0 {
        Seq::empty()
    } else {
        (if regex_compiles(regex_escaped(strs[0])) {
            seq![regex_escaped(strs[0])]
        } else {
            Seq::<Seq<u8>>::empty()
        }) + kept_literals(strs.skip(1))
    }
}

/// The sources that survive compiling the raw expressions: kept exactly
/// when the matcher accepts them, in order.
pub open spec fn kept_raw(regs: Seq<Seq<u8>>) -> Seq<Seq<u8>>
    decreases regs.len(),
{
    if regs.len() == 0 {
        Seq::empty()
    } else {
        (if regex_compiles(regs[0]) {
            seq![regs[0]]
        } else {
            Seq::<Seq<u8>>::empty()
        }) + kept_raw(regs.skip(1))
    }
}

/// Builds the pattern set: every literal string, escaped and compiled,
/// then every raw expression, compiled, in the given order; whatever the
/// matcher cannot compile is dropped silently. The sources of the result
/// are exactly the escaped literals that compile, followed by the raw
/// inputs that compile.
pub fn compile_patterns(strings: &Vec<Vec<u8>>, regexes: &Vec<Vec<u8>>) -> (ps: Vec<Pattern>)
    ensures
        sources_of(ps@) == kept_literals(views(strings@)) + kept_raw(views(regexes@)),
{
    let ghost sv = views(strings@);
    let ghost rv = views(regexes@);
    let mut ps: Vec<Pattern> = Vec::new();
    let mut i: usize = 0;
    proof {
        assert(sources_of(ps@) =~~= Seq::<Seq<u8>>::empty());
        assert(sv.skip(0) =~~= sv);
        assert(Seq::<Seq<u8>>::empty() + kept_literals(sv) =~~= kept_literals(sv));
    }
    while i < strings.len()
        invariant
            i <= strings@.len(),
            sv == views(strings@),
            rv == views(regexes@),
            kept_literals(sv) == sources_of(ps@) + kept_literals(sv.skip(i as int)),
        decreases strings@.len() - i,
    {
        let ghost old_ps = ps@;
        proof {
            assert(sv.skip(i as int)[0] == sv[i as int]);
            assert(sv[i as int] == strings@[i as int]@);
            assert(sv.skip(i as int).skip(1) =~~= sv.skip(i + 1));
        }
        match compile_literal(&strings[i]) {
            Option::Some(p) => {
                let ghost gp = p@;
                ps.push(p);
                proof {
                    assert(sources_of(ps@) =~~= sources_of(old_ps).push(gp));
                    assert(kept_literals(sv.skip(i as int)) == seq![
                        regex_escaped(strings@[i as int]@),
                    ] + kept_literals(sv.skip(i + 1)));
                    assert(sources_of(old_ps) + (seq![gp] + kept_literals(sv.skip(i + 1))) =~~=
                        sources_of(ps@) + kept_literals(sv.skip(i + 1)));
                }
            },
            Option::None => {
                proof {
                    assert(kept_literals(sv.skip(i as int)) =~~= kept_literals(sv.skip(i + 1)));
                }
            },
        }
        i = i + 1;
    }
    proof {
        assert(sv.skip(i as int) =~~= Seq::<Seq<u8>>::empty());
        assert(kept_literals(sv.skip(i as int)) =~~= Seq::<Seq<u8>>::empty());
        assert(sources_of(ps@) + Seq::<Seq<u8>>::empty() =~~= sources_of(ps@));
        assert(rv.skip(0) =~~= rv);
        assert(kept_literals(sv) + kept_raw(rv) =~~= sources_of(ps@) + kept_raw(rv.skip(0)));
    }
    let mut j: usize = 0;
    while j < regexes.len()
        invariant
            j <= regexes@.len(),
            sv == views(strings@),
            rv == views(regexes@),
            kept_literals(sv) + kept_raw(rv) == sources_of(ps@) + kept_raw(rv.skip(j as int)),
        decreases regexes@.len() - j,
    {
        let ghost old_ps = ps@;
        proof {
            assert(rv.skip(j as int)[0] == rv[j as int]);
            assert(rv[j as int] == regexes@[j as int]@);
            assert(rv.skip(j as int).skip(1) =~~= rv.skip(j + 1));
        }
        match compile_raw(&regexes[j]) {
            Option::Some(p) => {
                let ghost gp = p@;
                ps.push(p);
                proof {
                    assert(sources_of(ps@) =~~= sources_of(old_ps).push(gp));
                    assert(kept_raw(rv.skip(j as int)) == seq![regexes@[j as int]@] + kept_raw(
                        rv.skip(j + 1),
                    ));
                    assert(sources_of(old_ps) + (seq![gp] + kept_raw(rv.skip(j + 1))) =~~=
                        sources_of(ps@) + kept_raw(rv.skip(j + 1)));
                }
            },
            Option::None => {
                proof {
                    assert(kept_raw(rv.skip(j as int)) =~~= kept_raw(rv.skip(j + 1)));
                }
            },
        }
        j = j + 1;
    }
    proof {
        assert(rv.skip(j as int) =~~= Seq::<Seq<u8>>::empty());
        assert(kept_raw(rv.skip(j as int)) =~~= Seq::<Seq<u8>>::empty());
        assert(sources_of(ps@) + Seq::<Seq<u8>>::empty() =~~= sources_of(ps@));
    }
    ps
}

} // verus!
