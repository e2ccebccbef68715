//! Indentation normalization.
//!
//! The displayed window should not carry the file's common nesting depth.
//! Across the window's lines — the context lines above, the partial line
//! before the match, and the context lines below — the normalizer finds the
//! smallest count of leading whitespace among the non-empty lines. When
//! that minimum is at least two, every line loses one character fewer than
//! the minimum, so a single column of indentation is kept on the least
//! indented line; a minimum of zero or one, or a window with no non-empty
//! lines, strips nothing. The reported width is the minimum itself, or zero
//! when nothing was stripped.

use vstd::prelude::*;

use crate::bytes::subrange_vec;
use crate::lines::ContextWindow;
use crate::lines::NL;

verus! {

/// ASCII whitespace, apart from the line break itself.
pub open spec fn is_space(b: u8) -> bool {
    b == 32 || b == 9 || b == 11 || b == 12 || b == 13
}

/// The length of the whitespace prefix of `s`.
pub open spec fn leading_ws(s: Seq<u8>) -> int
    decreases s.len(),
{
    if s.len() == 0 || !is_space(s[0]) {
        0
    } else {
        1 + leading_ws(s.skip(1))
    }
}

pub proof fn lemma_leading_ws_le_len(s: Seq<u8>)
    ensures
        0 <= leading_ws(s) <= s.len(),
    decreases s.len(),
{
    if s.len() > 0 && is_space(s[0]) {
        lemma_leading_ws_le_len(s.skip(1));
    }
}

/// Counts the whitespace prefix of `line`.
pub fn leading_ws_count(line: &Vec<u8>) -> (n: usize)
    ensures
        n == leading_ws(line@),
{
    proof {
        lemma_leading_ws_le_len(line@);
        assert(line@.skip(0) =~= line@);
    }
    let mut i: usize = 0;
    while i < line.len() && (line[i] == 32 || line[i] == 9 || line[i] == 11 || line[i] == 12
        || line[i] == 13)
        invariant
            0 <= i <= line@.len(),
            leading_ws(line@) == i + leading_ws(line@.skip(i as int)),
            forall|j: int| 0 <= j < i ==> is_space(line@[j]),
        decreases line@.len() - i,
    {
        proof {
            assert(line@.skip(i as int)[0] == line@[i as int]);
            assert(line@.skip(i as int).skip(1) =~= line@.skip(i + 1));
        }
        i = i + 1;
    }
    proof {
        if i < line.len() {
            assert(line@.skip(i as int)[0] == line@[i as int]);
        }
        assert(leading_ws(line@.skip(i as int)) == 0);
    }
    i
}

/// The lines of `s`, split on the line-break byte. A buffer with `k` breaks
/// yields `k + 1` lines; an empty buffer yields one empty line.
pub open spec fn split_nl(s: Seq<u8>) -> Seq<Seq<u8>>
    decreases s.len(),
{
    if s.len() == 0 {
        seq![Seq::empty()]
    } else if s[0] == NL {
        seq![Seq::<u8>::empty()] + split_nl(s.skip(1))
    } else {
        let rest = split_nl(s.skip(1));
        seq![seq![s[0]] + rest[0]] + rest.skip(1)
    }
}

pub proof fn lemma_split_nl_len(s: Seq<u8>)
    ensures
        split_nl(s).len() >= 1,
    decreases s.len(),
{
    if s.len() > 0 {
        lemma_split_nl_len(s.skip(1));
    }
}

/// The lines joined back with single line breaks.
pub open spec fn join_nl(parts: Seq<Seq<u8>>) -> Seq<u8>
    decreases parts.len(),
{
    if parts.len() == 0 {
        Seq::empty()
    } else if parts.len() == 1 {
        parts[0]
    } else {
        parts[0] + seq![NL] + join_nl(parts.skip(1))
    }
}

/// The views of a list of byte vectors.
pub open spec fn views(vs: Seq<Vec<u8>>) -> Seq<Seq<u8>> {
    vs.map_values(|v: Vec<u8>| v@)
}

/// Splits `v` into its lines.
pub fn split_lines(v: &Vec<u8>) -> (r: Vec<Vec<u8>>)
    ensures
        views(r@) == split_nl(v@),
{
    let ghost s = v@;
    let mut out: Vec<Vec<u8>> = Vec::new();
    let mut cur: Vec<u8> = Vec::new();
    let mut i: usize = 0;
    proof {
        assert(s.skip(0) =~= s);
        assert(Seq::<u8>::empty() + split_nl(s)[0] =~= split_nl(s)[0]);
        assert(split_nl(s) =~~= views(out@) + seq![cur@ + split_nl(s)[0]] + split_nl(s).skip(1)) by {
            lemma_split_nl_len(s);
            assert(split_nl(s) =~~= seq![split_nl(s)[0]] + split_nl(s).skip(1));
        }
    }
    while i < v.len()
        invariant
            0 <= i <= s.len(),
            v@ == s,
            split_nl(s) =~~= views(out@) + seq![cur@ + split_nl(s.skip(i as int))[0]] + split_nl(
                s.skip(i as int),
            ).skip(1),
        decreases s.len() - i,
    {
        let ghost rem = s.skip(i as int);
        let ghost rem1 = s.skip(i + 1);
        let ghost rest = split_nl(rem1);
        proof {
            assert(rem[0] == s[i as int]);
            assert(rem.skip(1) =~= rem1);
            lemma_split_nl_len(rem1);
        }
        if v[i] == NL {
            proof {
                assert(split_nl(rem) =~~= seq![Seq::<u8>::empty()] + rest);
            }
            let ghost old_out = out@;
            let ghost old_cur = cur@;
            out.push(cur);
            cur = Vec::new();
            proof {
                assert(views(out@) =~~= views(old_out).push(old_cur));
                // The pending line closes: it moves whole into `out`, and the
                // next pending line starts empty.
                assert(old_cur + split_nl(rem)[0] =~= old_cur);
                assert(split_nl(rem).skip(1) =~~= rest);
                assert(cur@ + rest[0] =~= rest[0]);
                assert(rest =~~= seq![rest[0]] + rest.skip(1));
                assert(views(old_out) + seq![old_cur] + rest =~~= views(out@) + seq![cur@ + rest[0]]
                    + rest.skip(1));
            }
        } else {
            let b = v[i];
            let ghost old_cur = cur@;
            cur.push(b);
            proof {
                assert(split_nl(rem) =~~= seq![seq![s[i as int]] + rest[0]] + rest.skip(1));
                // The pending line grows by one byte; the tail is unchanged.
                assert(old_cur + split_nl(rem)[0] =~= cur@ + rest[0]);
                assert(split_nl(rem).skip(1) =~~= rest.skip(1));
            }
        }
        i = i + 1;
    }
    proof {
        let rem = s.skip(i as int);
        assert(rem =~= Seq::<u8>::empty());
        assert(cur@ + split_nl(rem)[0] =~= cur@);
        assert(split_nl(rem).skip(1) =~~= Seq::<Seq<u8>>::empty());
    }
    let ghost old_out = out@;
    let ghost old_cur = cur@;
    out.push(cur);
    proof {
        assert(views(out@) =~~= views(old_out).push(old_cur));
        assert(split_nl(s) =~~= views(out@));
    }
    out
}

/// Joins lines back with single line breaks.
pub fn join_lines(parts: &Vec<Vec<u8>>) -> (r: Vec<u8>)
    ensures
        r@ == join_nl(views(parts@)),
{
    let mut r: Vec<u8> = Vec::new();
    let mut i: usize = 0;
    proof {
        assert(views(parts@).skip(0) =~= views(parts@));
    }
    while i < parts.len()
        invariant
            0 <= i <= parts@.len(),
            join_nl(views(parts@)) == r@ + join_nl(views(parts@).skip(i as int)),
        decreases parts@.len() - i,
    {
        let ghost vs = views(parts@);
        proof {
            assert(vs.skip(i as int)[0] == parts@[i as int]@);
            assert(vs.skip(i as int).skip(1) =~= vs.skip(i + 1));
        }
        r.extend_from_slice(parts[i].as_slice());
        if i + 1 < parts.len() {
            r.push(NL);
        } else {
            proof {
                assert(vs.skip(i as int).len() == 1);
            }
        }
        i = i + 1;
    }
    proof {
        assert(views(parts@).skip(i as int) =~= Seq::<Seq<u8>>::empty());
    }
    r
}

/// The least whitespace prefix among the non-empty lines, if any line is
/// non-empty.
pub open spec fn min_indent(parts: Seq<Seq<u8>>) -> Option<int>
    decreases parts.len(),
{
    if parts.len() == 0 {
        None
    } else {
        let rest = min_indent(parts.skip(1));
        if parts[0].len() == 0 {
            rest
        } else {
            let w = leading_ws(parts[0]);
            match rest {
                Option::None => Option::Some(w),
                Option::Some(m) => Option::Some(
                    if w < m {
                        w
                    } else {
                        m
                    },
                ),
            }
        }
    }
}

/// The minimum bounds every non-empty line's whitespace prefix.
pub proof fn lemma_min_indent_le(parts: Seq<Seq<u8>>, i: int)
    requires
        0 <= i < parts.len(),
        parts[i].len() > 0,
    ensures
        min_indent(parts) is Some,
        min_indent(parts)->Some_0 <= leading_ws(parts[i]),
    decreases parts.len(),
{
    if i == 0 {
        lemma_leading_ws_le_len(parts[0]);
    } else {
        lemma_min_indent_le(parts.skip(1), i - 1);
        assert(parts.skip(1)[i - 1] == parts[i]);
    }
}

/// Computes `min_indent` of the lines from `i` on.
fn min_indent_from(parts: &Vec<Vec<u8>>, i: usize) -> (r: Option<usize>)
    requires
        i <= parts@.len(),
    ensures
        match r {
            Option::None => min_indent(views(parts@).skip(i as int)) is None,
            Option::Some(m) => min_indent(views(parts@).skip(i as int)) == Option::Some(m as int),
        },
    decreases parts@.len() - i,
{
    let ghost vs = views(parts@);
    if i >= parts.len() {
        proof {
            assert(vs.skip(i as int) =~= Seq::<Seq<u8>>::empty());
        }
        None
    } else {
        proof {
            assert(vs.skip(i as int)[0] == parts@[i as int]@);
            assert(vs.skip(i as int).skip(1) =~= vs.skip(i + 1));
        }
        let rest = min_indent_from(parts, i + 1);
        if parts[i].len() == 0 {
            rest
        } else {
            let w = leading_ws_count(&parts[i]);
            match rest {
                Option::None => Some(w),
                Option::Some(m) => Some(
                    if w < m {
                        w
                    } else {
                        m
                    },
                ),
            }
        }
    }
}

/// A line with `k` characters of indentation removed; empty lines stay.
pub open spec fn strip_line(l: Seq<u8>, k: int) -> Seq<u8> {
    if l.len() == 0 {
        l
    } else {
        l.skip(k)
    }
}

/// A buffer of lines, each stripped of `k` leading characters.
pub open spec fn stripped(s: Seq<u8>, k: int) -> Seq<u8> {
    join_nl(split_nl(s).map_values(|l: Seq<u8>| strip_line(l, k)))
}

/// Strips `k` leading bytes from every non-empty line.
fn strip_all(lines: &Vec<Vec<u8>>, k: usize) -> (r: Vec<Vec<u8>>)
    requires
        forall|i: int| 0 <= i < lines@.len() && lines@[i]@.len() > 0 ==> k <= lines@[i]@.len(),
    ensures
        views(r@) == views(lines@).map_values(|l: Seq<u8>| strip_line(l, k as int)),
{
    let mut r: Vec<Vec<u8>> = Vec::new();
    let mut i: usize = 0;
    while i < lines.len()
        invariant
            0 <= i <= lines@.len(),
            forall|j: int| 0 <= j < lines@.len() && lines@[j]@.len() > 0 ==> k <= lines@[j]@.len(),
            views(r@) == views(lines@).map_values(|l: Seq<u8>| strip_line(l, k as int)).subrange(
                0,
                i as int,
            ),
        decreases lines@.len() - i,
    {
        let line = &lines[i];
        let ghost old_r = r@;
        if line.len() == 0 {
            r.push(Vec::new());
        } else {
            let s = subrange_vec(line, k, line.len());
            r.push(s);
        }
        proof {
            let m = views(lines@).map_values(|l: Seq<u8>| strip_line(l, k as int));
            assert(views(r@) =~~= views(old_r).push(r@[r@.len() - 1]@));
            assert(r@[r@.len() - 1]@ =~= m[i as int]);
            assert(views(r@) =~~= m.subrange(0, i + 1));
        }
        i = i + 1;
    }
    proof {
        let m = views(lines@).map_values(|l: Seq<u8>| strip_line(l, k as int));
        assert(m.subrange(0, lines@.len() as int) =~~= m);
    }
    r
}

/// The window's lines that indentation is measured over: the context lines
/// above, the partial line before the match, and the context lines below.
pub open spec fn relevant_lines(cb: Seq<u8>, before: Seq<u8>, ca: Seq<u8>) -> Seq<Seq<u8>> {
    split_nl(cb) + seq![before] + split_nl(ca)
}

/// What normalization leaves alone in every case.
pub open spec fn keeps_match(a: ContextWindow, b: ContextWindow) -> bool {
    &&& b.matched == a.matched
    &&& b.after == a.after
    &&& b.line_number == a.line_number
}

/// The three mutable spans are unchanged.
pub open spec fn keeps_context(a: ContextWindow, b: ContextWindow) -> bool {
    &&& b.context_before == a.context_before
    &&& b.before == a.before
    &&& b.context_after == a.context_after
}

/// The three mutable spans each lost `k` leading characters per line.
pub open spec fn context_stripped(a: ContextWindow, b: ContextWindow, k: int) -> bool {
    &&& b.context_before@ == stripped(a.context_before@, k)
    &&& b.before@ == strip_line(a.before@, k)
    &&& b.context_after@ == stripped(a.context_after@, k)
}

/// Normalizes the window's indentation in place and reports the width.
///
/// With `m` the least whitespace prefix among the window's non-empty lines:
/// when no such line exists or `m` is zero or one, nothing changes and the
/// width is zero; otherwise every context line and the partial line before
/// the match lose `m - 1` leading characters and the width is `m`. The
/// matched bytes, the partial line after the match, and the line number
/// never change.
pub fn normalize_indent(w: &mut ContextWindow) -> (x: usize)
    ensures
        keeps_match(*old(w), *final(w)),
        ({
            let m = min_indent(
                relevant_lines(old(w).context_before@, old(w).before@, old(w).context_after@),
            );
            match m {
                Option::None => x == 0 && keeps_context(*old(w), *final(w)),
                Option::Some(mm) => {
                    if mm <= 1 {
                        x == 0 && keeps_context(*old(w), *final(w))
                    } else {
                        x == mm && context_stripped(*old(w), *final(w), mm - 1)
                    }
                },
            }
        }),
{
    let cb_lines = split_lines(&w.context_before);
    let ca_lines = split_lines(&w.context_after);

    let mut parts: Vec<Vec<u8>> = Vec::new();
    let mut i: usize = 0;
    while i < cb_lines.len()
        invariant
            0 <= i <= cb_lines@.len(),
            views(parts@) == views(cb_lines@).subrange(0, i as int),
        decreases cb_lines@.len() - i,
    {
        let ghost old_parts = parts@;
        let line = subrange_vec(&cb_lines[i], 0, cb_lines[i].len());
        parts.push(line);
        proof {
            assert(views(parts@) =~~= views(old_parts).push(cb_lines@[i as int]@));
            assert(views(parts@) =~~= views(cb_lines@).subrange(0, i + 1));
        }
        i = i + 1;
    }
    proof {
        assert(views(cb_lines@).subrange(0, cb_lines@.len() as int) =~~= views(cb_lines@));
    }
    let ghost old_parts = parts@;
    let before_copy = subrange_vec(&w.before, 0, w.before.len());
    parts.push(before_copy);
    proof {
        assert(views(parts@) =~~= views(old_parts).push(w.before@));
        assert(views(parts@) =~~= views(cb_lines@) + seq![w.before@] + views(ca_lines@).subrange(
            0,
            0,
        ));
    }
    let mut j: usize = 0;
    while j < ca_lines.len()
        invariant
            0 <= j <= ca_lines@.len(),
            views(parts@) == views(cb_lines@) + seq![w.before@] + views(ca_lines@).subrange(
                0,
                j as int,
            ),
            w.before@ == old(w).before@,
        decreases ca_lines@.len() - j,
    {
        let ghost old_parts2 = parts@;
        let line = subrange_vec(&ca_lines[j], 0, ca_lines[j].len());
        parts.push(line);
        proof {
            assert(views(parts@) =~~= views(old_parts2).push(ca_lines@[j as int]@));
            assert(views(parts@) =~~= views(cb_lines@) + seq![w.before@] + views(
                ca_lines@,
            ).subrange(0, j + 1));
        }
        j = j + 1;
    }
    proof {
        assert(views(ca_lines@).subrange(0, ca_lines@.len() as int) =~~= views(ca_lines@));
        assert(views(parts@) =~~= relevant_lines(w.context_before@, w.before@, w.context_after@));
    }

    let m = min_indent_from(&parts, 0);
    proof {
        assert(views(parts@).skip(0) =~~= views(parts@));
    }
    match m {
        Option::None => 0,
        Option::Some(mm) => {
            if mm <= 1 {
                0
            } else {
                let k = mm - 1;
                let ghost rel = relevant_lines(w.context_before@, w.before@, w.context_after@);
                proof {
                    assert forall|t: int|
                        0 <= t < cb_lines@.len() && cb_lines@[t]@.len() > 0 implies k
                        <= cb_lines@[t]@.len() by {
                        assert(views(cb_lines@)[t] == cb_lines@[t]@);
                        assert(rel[t] == views(cb_lines@)[t]);
                        lemma_min_indent_le(rel, t);
                        lemma_leading_ws_le_len(rel[t]);
                    }
                    assert forall|t: int|
                        0 <= t < ca_lines@.len() && ca_lines@[t]@.len() > 0 implies k
                        <= ca_lines@[t]@.len() by {
                        let u = t + views(cb_lines@).len() + 1;
                        assert(views(ca_lines@)[t] == ca_lines@[t]@);
                        assert(rel[u] == views(ca_lines@)[t]);
                        lemma_min_indent_le(rel, u);
                        lemma_leading_ws_le_len(rel[u]);
                    }
                }
                let cb_stripped = strip_all(&cb_lines, k);
                let ca_stripped = strip_all(&ca_lines, k);
                let new_cb = join_lines(&cb_stripped);
                let new_ca = join_lines(&ca_stripped);
                let new_before = if w.before.len() == 0 {
                    Vec::new()
                } else {
                    proof {
                        let u = views(cb_lines@).len() as int;
                        assert(rel[u] == w.before@);
                        lemma_min_indent_le(rel, u);
                        lemma_leading_ws_le_len(w.before@);
                    }
                    subrange_vec(&w.before, k, w.before.len())
                };
                proof {
                    assert(new_before@ =~= strip_line(w.before@, k as int));
                    assert(new_cb@ == stripped(w.context_before@, k as int));
                    assert(new_ca@ == stripped(w.context_after@, k as int));
                }
                w.context_before = new_cb;
                w.before = new_before;
                w.context_after = new_ca;
                mm
            }
        },
    }
}

} // verus!
