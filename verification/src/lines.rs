//! Line index and context extraction.
//!
//! `line_breaks` records the byte offset of every line break in a text
//! buffer. For a match given by byte offsets, `extract_window` carves out
//! the five spans of a context window: the configured number of context
//! lines above the match's line, the partial line before the match, the
//! matched bytes, the partial line after the match, and the context lines
//! below. A match on the first line, or one past the last line break,
//! clips the window at the buffer's edge instead of underflowing.

use vstd::prelude::*;

use crate::bytes::subrange_vec;

verus! {

pub const NL: u8 = 10;

/// The entries of `br` are strictly increasing.
pub open spec fn strictly_increasing(br: Seq<usize>) -> bool {
    forall|i: int, j: int| 0 <= i < j < br.len() ==> br[i] < br[j]
}

/// `p` is one of the recorded break offsets.
pub open spec fn is_break(br: Seq<usize>, p: int) -> bool {
    exists|i: int| 0 <= i < br.len() && br[i] == p
}

/// `br` lists, in increasing order, exactly the offsets of the line-break
/// bytes of `text`.
pub open spec fn breaks_ok(text: Seq<u8>, br: Seq<usize>) -> bool {
    &&& strictly_increasing(br)
    &&& forall|i: int| 0 <= i < br.len() ==> br[i] < text.len() && text[br[i] as int] == NL
    &&& forall|p: int| 0 <= p < text.len() && #[trigger] text[p] == NL ==> is_break(br, p)
}

/// Builds the line index: the offsets of every line break of `text`.
pub fn line_breaks(text: &Vec<u8>) -> (br: Vec<usize>)
    ensures
        breaks_ok(text@, br@),
{
    let mut br: Vec<usize> = Vec::new();
    let mut i: usize = 0;
    while i < text.len()
        invariant
            i <= text@.len(),
            strictly_increasing(br@),
            forall|k: int| 0 <= k < br@.len() ==> br@[k] < i && text@[br@[k] as int] == NL,
            forall|p: int| 0 <= p < i && #[trigger] text@[p] == NL ==> is_break(br@, p),
        decreases text@.len() - i,
    {
        if text[i] == NL {
            let ghost old_br = br@;
            br.push(i);
            proof {
                assert forall|p: int| 0 <= p < i + 1 && #[trigger] text@[p] == NL implies is_break(
                    br@,
                    p,
                ) by {
                    if p == i {
                        assert(br@[br@.len() - 1] == p);
                    } else {
                        let w = choose|w: int| 0 <= w < old_br.len() && old_br[w] == p;
                        assert(br@[w] == p);
                    }
                }
            }
        }
        i = i + 1;
    }
    br
}

/// `k` breaks lie strictly before offset `p`: the first `k` entries of `br`
/// are below `p` and the next one, if any, is at or above it.
pub open spec fn is_break_bound(br: Seq<usize>, p: int, k: int) -> bool {
    &&& 0 <= k <= br.len()
    &&& forall|i: int| 0 <= i < k ==> br[i] < p
    &&& (k == br.len() || br[k] >= p)
}

/// For a sorted index there is only one such `k`.
pub proof fn lemma_break_bound_unique(br: Seq<usize>, p: int, k1: int, k2: int)
    requires
        strictly_increasing(br),
        is_break_bound(br, p, k1),
        is_break_bound(br, p, k2),
    ensures
        k1 == k2,
{
    if k1 < k2 {
        assert(br[k1] < p);
    }
    if k2 < k1 {
        assert(br[k2] < p);
    }
}

/// The number of breaks strictly before offset `p`.
pub open spec fn break_bound_of(br: Seq<usize>, p: int) -> int {
    choose|k: int| is_break_bound(br, p, k)
}

/// Counts the breaks before `p`, resuming the scan at `from`.
pub fn break_bound(br: &Vec<usize>, p: usize, from: usize) -> (k: usize)
    requires
        strictly_increasing(br@),
        from <= br@.len(),
        forall|i: int| 0 <= i < from ==> br@[i] < p,
    ensures
        is_break_bound(br@, p as int, k as int),
        from <= k,
        break_bound_of(br@, p as int) == k,
{
    let mut k = from;
    while k < br.len() && br[k] < p
        invariant
            from <= k <= br@.len(),
            forall|i: int| 0 <= i < k ==> br@[i] < p,
        decreases br@.len() - k,
    {
        k = k + 1;
    }
    proof {
        assert(is_break_bound(br@, p as int, k as int));
        lemma_break_bound_unique(
            br@,
            p as int,
            k as int,
            choose|j: int| is_break_bound(br@, p as int, j),
        );
    }
    k
}

/// Breaks come no earlier than their index.
pub proof fn lemma_breaks_ge_index(br: Seq<usize>, i: int)
    requires
        strictly_increasing(br),
        0 <= i < br.len(),
    ensures
        br[i] >= i,
    decreases i,
{
    if i > 0 {
        lemma_breaks_ge_index(br, i - 1);
    }
}

/// There are no more breaks than bytes.
pub proof fn lemma_breaks_len(text: Seq<u8>, br: Seq<usize>)
    requires
        breaks_ok(text, br),
    ensures
        br.len() <= text.len(),
{
    if br.len() > 0 {
        lemma_breaks_ge_index(br, br.len() - 1);
    }
}

/// The start offset of the 0-based line `k`: one past the preceding break.
pub open spec fn line_start(br: Seq<usize>, k: int) -> int {
    if k <= 0 {
        0
    } else {
        br[k - 1] + 1
    }
}

/// The end offset of the line on which a match ends, `ce` being the number
/// of breaks before the match's end: the next break, or the buffer's end.
pub open spec fn match_line_end(text: Seq<u8>, br: Seq<usize>, ce: int) -> int {
    if ce < br.len() {
        br[ce] as int
    } else {
        text.len() as int
    }
}

/// Where the window opens: `c` lines above the match's line `cs`, clipped
/// at the start of the buffer.
pub open spec fn window_start(br: Seq<usize>, cs: int, c: int) -> int {
    if cs <= c {
        0
    } else {
        line_start(br, cs - c)
    }
}

/// Where the window closes: the end of the line `c` lines below the line on
/// which the match ends, clipped at the end of the buffer.
pub open spec fn window_end(text: Seq<u8>, br: Seq<usize>, ce: int, c: int) -> int {
    if ce + c < br.len() {
        br[ce + c] as int
    } else {
        text.len() as int
    }
}

/// The context lines above the match's line, without their trailing break.
pub open spec fn cb_spec(text: Seq<u8>, br: Seq<usize>, cs: int, c: int) -> Seq<u8> {
    if cs == 0 || c == 0 {
        Seq::empty()
    } else {
        text.subrange(window_start(br, cs, c), br[cs - 1] as int)
    }
}

/// The context lines below the line on which the match ends.
pub open spec fn ca_spec(text: Seq<u8>, br: Seq<usize>, ce: int, c: int) -> Seq<u8> {
    if ce >= br.len() || c == 0 {
        Seq::empty()
    } else {
        text.subrange(br[ce] + 1, window_end(text, br, ce, c))
    }
}

/// The number of line-break bytes in `s`.
pub open spec fn count_nl(s: Seq<u8>) -> int
    decreases s.len(),
{
    if s.len() == 0 {
        0
    } else {
        count_nl(s.drop_last()) + if s.last() == NL {
            1int
        } else {
            0int
        }
    }
}

/// A subrange holds as many line breaks as the index records between its
/// two edges.
pub proof fn lemma_count_nl_subrange(
    text: Seq<u8>,
    br: Seq<usize>,
    lo: int,
    hi: int,
    klo: int,
    khi: int,
)
    requires
        breaks_ok(text, br),
        0 <= lo <= hi <= text.len(),
        is_break_bound(br, lo, klo),
        is_break_bound(br, hi, khi),
    ensures
        count_nl(text.subrange(lo, hi)) == khi - klo,
    decreases hi - lo,
{
    if lo == hi {
        lemma_break_bound_unique(br, lo, klo, khi);
    } else {
        let s = text.subrange(lo, hi);
        assert(s.drop_last() =~= text.subrange(lo, hi - 1));
        assert(s.last() == text[hi - 1]);
        if text[hi - 1] == NL {
            let i = choose|i: int| 0 <= i < br.len() && br[i] == hi - 1;
            assert(i < khi) by {
                if i >= khi {
                    assert(khi < br.len());
                    if i > khi {
                        assert(br[khi] < br[i]);
                    }
                }
            }
            assert(i == khi - 1) by {
                if i < khi - 1 {
                    assert(br[i] < br[khi - 1]);
                    assert(br[khi - 1] < hi);
                }
            }
            assert(is_break_bound(br, hi - 1, khi - 1));
            lemma_count_nl_subrange(text, br, lo, hi - 1, klo, khi - 1);
        } else {
            assert forall|i: int| 0 <= i < khi implies br[i] < hi - 1 by {
                assert(text[br[i] as int] == NL);
            }
            assert(is_break_bound(br, hi - 1, khi));
            lemma_count_nl_subrange(text, br, lo, hi - 1, klo, khi);
        }
    }
}

/// How many full lines the two context spans hold. For a buffer that ends
/// with a line break and holds `br.len()` lines, a window with `c` context
/// lines holds exactly `min(c, cs)` lines above the match's line (the match
/// starts on the 1-based line `cs + 1`) and exactly `min(c, br.len() - 1 - ce)`
/// lines below the line on which the match ends: clipping at the buffer's
/// edges removes no more, and the window never holds more. The counts are
/// stated through the line breaks inside each span: `j` joined lines hold
/// `j - 1` breaks, and the span below carries its last line's own break
/// exactly when it is clipped at the buffer's end.
pub proof fn lemma_window_line_counts(text: Seq<u8>, br: Seq<usize>, start: int, end: int, c: int)
    requires
        breaks_ok(text, br),
        0 <= start <= end <= text.len(),
        text.len() > 0,
        text[text.len() - 1] == NL,
        c >= 0,
    ensures
        ({
            let cs = break_bound_of(br, start);
            let jb = if cs <= c {
                cs
            } else {
                c
            };
            count_nl(cb_spec(text, br, cs, c)) == if jb == 0 {
                0
            } else {
                jb - 1
            }
        }),
        ({
            let ce = break_bound_of(br, end);
            let n = br.len() as int;
            let ja = if c <= n - 1 - ce {
                c
            } else {
                n - 1 - ce
            };
            count_nl(ca_spec(text, br, ce, c)) == if ce >= n || c == 0 {
                0
            } else if ce + c < n {
                ja - 1
            } else {
                ja
            }
        }),
{
    let n = br.len() as int;
    let cs = break_bound_of(br, start);
    let ce = break_bound_of(br, end);
    assert(is_break_bound(br, start, cs) && is_break_bound(br, end, ce)) by {
        lemma_break_bound_exists(br, start);
        lemma_break_bound_exists(br, end);
    }

    // The span above the match's line.
    if cs == 0 || c == 0 {
        assert(count_nl(cb_spec(text, br, cs, c)) == 0);
    } else {
        let jb = if cs <= c {
            cs
        } else {
            c
        };
        let ws = window_start(br, cs, c);
        assert(is_break_bound(br, ws, cs - jb));
        assert(is_break_bound(br, br[cs - 1] as int, cs - 1));
        lemma_count_nl_subrange(text, br, ws, br[cs - 1] as int, cs - jb, cs - 1);
    }

    // The span below the line on which the match ends.
    if ce >= n || c == 0 {
        assert(count_nl(ca_spec(text, br, ce, c)) == 0);
    } else {
        let lo = br[ce] + 1;
        assert(is_break_bound(br, lo, ce + 1));
        let we = window_end(text, br, ce, c);
        if ce + c < n {
            assert(is_break_bound(br, we, ce + c));
            lemma_count_nl_subrange(text, br, lo, we, ce + 1, ce + c);
        } else {
            assert(is_break_bound(br, we, n));
            lemma_count_nl_subrange(text, br, lo, we, ce + 1, n);
        }
    }
}

/// Some break bound exists for every offset.
pub proof fn lemma_break_bound_exists(br: Seq<usize>, p: int)
    requires
        strictly_increasing(br),
    ensures
        is_break_bound(br, p, break_bound_of(br, p)),
    decreases br.len(),
{
    if br.len() == 0 {
        assert(is_break_bound(br, p, 0));
    } else if br[br.len() - 1] >= p {
        let sub = br.drop_last();
        lemma_break_bound_exists(sub, p);
        let k = break_bound_of(sub, p);
        assert(is_break_bound(sub, p, k));
        assert(forall|i: int| 0 <= i < sub.len() ==> sub[i] == br[i]);
        assert(k < br.len() && br[k] >= p) by {
            if k == sub.len() {
                assert(br[k] == br[br.len() - 1]);
            } else {
                assert(br[k] == sub[k]);
            }
        }
        assert(is_break_bound(br, p, k));
    } else {
        assert(is_break_bound(br, p, br.len() as int));
    }
    assert(is_break_bound(br, p, choose|k: int| is_break_bound(br, p, k)));
}

/// A context window: the five spans carved out around one match, and the
/// 1-based number of the line on which the match starts.
pub struct ContextWindow {
    pub context_before: Vec<u8>,
    pub before: Vec<u8>,
    pub matched: Vec<u8>,
    pub after: Vec<u8>,
    pub context_after: Vec<u8>,
    pub line_number: usize,
}

/// Carves the context window for the match `start..end` out of `text`,
/// with `c` context lines on either side.
pub fn extract_window(text: &Vec<u8>, br: &Vec<usize>, start: usize, end: usize, c: usize) -> (w:
    ContextWindow)
    requires
        breaks_ok(text@, br@),
        start <= end <= text@.len(),
        text@.len() < usize::MAX,
    ensures
        ({
            let cs = break_bound_of(br@, start as int);
            let ce = break_bound_of(br@, end as int);
            &&& w.line_number == cs + 1
            &&& w.context_before@ == cb_spec(text@, br@, cs, c as int)
            &&& w.before@ == text@.subrange(line_start(br@, cs), start as int)
            &&& w.matched@ == text@.subrange(start as int, end as int)
            &&& w.after@ == text@.subrange(end as int, match_line_end(text@, br@, ce))
            &&& w.context_after@ == ca_spec(text@, br@, ce, c as int)
        }),
{
    proof {
        lemma_breaks_len(text@, br@);
    }
    let cs = break_bound(br, start, 0);
    let ce = break_bound(br, end, cs);

    // Partial line before the match, from the start of the match's line.
    let ls: usize = if cs == 0 {
        0
    } else {
        br[cs - 1] + 1
    };
    let before = subrange_vec(text, ls, start);

    // The matched bytes themselves.
    let matched = subrange_vec(text, start, end);

    // Partial line after the match, up to the end of its line.
    let me: usize = if ce < br.len() {
        br[ce]
    } else {
        text.len()
    };
    let after = subrange_vec(text, end, me);

    // Context above: up to `c` full lines, clipped at the buffer's start.
    let context_before = if cs == 0 || c == 0 {
        Vec::new()
    } else {
        let ws: usize = if cs <= c {
            0
        } else {
            br[cs - c - 1] + 1
        };
        subrange_vec(text, ws, br[cs - 1])
    };

    // Context below: up to `c` full lines, clipped at the buffer's end.
    let context_after = if ce >= br.len() || c == 0 {
        Vec::new()
    } else {
        let we: usize = if c < br.len() - ce {
            br[ce + c]
        } else {
            text.len()
        };
        subrange_vec(text, br[ce] + 1, we)
    };

    proof {
        assert(cb_spec(text@, br@, cs as int, c as int) =~= context_before@);
        assert(ca_spec(text@, br@, ce as int, c as int) =~= context_after@);
    }

    ContextWindow { context_before, before, matched, after, context_after, line_number: cs + 1 }
}

} // verus!
