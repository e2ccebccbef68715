//! An ordered, deduplicating file list.
//!
//! A traversal hands in canonical paths, possibly with repeats when the
//! same physical file is reachable from two roots. `sort_dedup_paths`
//! returns them sorted bytewise and with every value kept exactly once, so
//! that the order in which files are processed is deterministic and the
//! same file never appears twice.

use vstd::prelude::*;

use crate::bytes::subrange_vec;
use crate::indent::views;

verus! {

/// Bytewise lexicographic order: the usual order of byte strings.
pub open spec fn lex_lt(a: Seq<u8>, b: Seq<u8>) -> bool
    decreases a.len(),
{
    if b.len() == 0 {
        false
    } else if a.len() == 0 {
        true
    } else if a[0] < b[0] {
        true
    } else if a[0] > b[0] {
        false
    } else {
        lex_lt(a.skip(1), b.skip(1))
    }
}

/// Two distinct strings compare in one direction or the other.
pub proof fn lemma_lex_connex(a: Seq<u8>, b: Seq<u8>)
    requires
        !lex_lt(a, b),
        a != b,
    ensures
        lex_lt(b, a),
    decreases a.len(),
{
    if a.len() == 0 && b.len() == 0 {
        assert(a =~= b);
    } else if b.len() == 0 {
    } else if a.len() == 0 {
    } else if a[0] == b[0] {
        assert(a.skip(1) != b.skip(1)) by {
            if a.skip(1) == b.skip(1) {
                assert(a.len() == b.len()) by {
                    assert(a.skip(1).len() == a.len() - 1);
                    assert(b.skip(1).len() == b.len() - 1);
                }
                assert(a =~= b) by {
                    assert forall|i: int| 0 <= i < a.len() implies a[i] == b[i] by {
                        if i > 0 {
                            assert(a.skip(1)[i - 1] == a[i]);
                            assert(b.skip(1)[i - 1] == b[i]);
                        }
                    }
                }
            }
        }
        lemma_lex_connex(a.skip(1), b.skip(1));
    }
}

/// The order is transitive.
pub proof fn lemma_lex_trans(a: Seq<u8>, b: Seq<u8>, c: Seq<u8>)
    requires
        lex_lt(a, b),
        lex_lt(b, c),
    ensures
        lex_lt(a, c),
    decreases a.len(),
{
    if c.len() == 0 {
    } else if a.len() == 0 {
    } else if b.len() == 0 {
    } else {
        if a[0] == b[0] && b[0] == c[0] {
            lemma_lex_trans(a.skip(1), b.skip(1), c.skip(1));
        }
    }
}

/// Compares two byte strings in the lexicographic order.
fn bytes_lt(a: &Vec<u8>, b: &Vec<u8>) -> (r: bool)
    ensures
        r == lex_lt(a@, b@),
{
    let mut i: usize = 0;
    proof {
        assert(a@.skip(0) =~= a@);
        assert(b@.skip(0) =~= b@);
    }
    while i < a.len() && i < b.len() && a[i] == b[i]
        invariant
            i <= a@.len(),
            i <= b@.len(),
            lex_lt(a@, b@) == lex_lt(a@.skip(i as int), b@.skip(i as int)),
        decreases a@.len() - i,
    {
        proof {
            assert(a@.skip(i as int)[0] == a@[i as int]);
            assert(b@.skip(i as int)[0] == b@[i as int]);
            assert(a@.skip(i as int).skip(1) =~= a@.skip(i + 1));
            assert(b@.skip(i as int).skip(1) =~= b@.skip(i + 1));
        }
        i = i + 1;
    }
    proof {
        if i < a.len() && i < b.len() {
            assert(a@.skip(i as int)[0] == a@[i as int]);
            assert(b@.skip(i as int)[0] == b@[i as int]);
        }
    }
    if i < a.len() && i < b.len() {
        a[i] < b[i]
    } else {
        i < b.len()
    }
}

/// Compares two byte strings for equality.
fn bytes_eq(a: &Vec<u8>, b: &Vec<u8>) -> (r: bool)
    ensures
        r == (a@ == b@),
{
    if a.len() != b.len() {
        return false;
    }
    let mut i: usize = 0;
    while i < a.len()
        invariant
            a@.len() == b@.len(),
            i <= a@.len(),
            forall|j: int| 0 <= j < i ==> a@[j] == b@[j],
        decreases a@.len() - i,
    {
        if a[i] != b[i] {
            return false;
        }
        i = i + 1;
    }
    proof {
        assert(a@ =~= b@);
    }
    true
}

/// `x` is one of the values of `vs`.
pub open spec fn seq_contains(vs: Seq<Seq<u8>>, x: Seq<u8>) -> bool {
    exists|i: int| 0 <= i < vs.len() && vs[i] == x
}

/// Strictly sorted: so every value appears at most once.
pub open spec fn strictly_sorted(vs: Seq<Seq<u8>>) -> bool {
    forall|i: int, j: int| 0 <= i < j < vs.len() ==> lex_lt(#[trigger] vs[i], #[trigger] vs[j])
}

/// Inserts `p` into the sorted list `r`, keeping it sorted; a value already
/// present is not inserted again.
fn insert_unique(r: &mut Vec<Vec<u8>>, p: Vec<u8>)
    requires
        strictly_sorted(views(old(r)@)),
    ensures
        strictly_sorted(views(final(r)@)),
        forall|x: Seq<u8>|
            seq_contains(views(final(r)@), x) <==> (seq_contains(views(old(r)@), x) || x == p@),
{
    let ghost old_vs = views(r@);
    let mut k: usize = 0;
    while k < r.len() && bytes_lt(&r[k], &p)
        invariant
            k <= r@.len(),
            r@ == old(r)@,
            forall|i: int| 0 <= i < k ==> lex_lt(views(r@)[i], p@),
        decreases r@.len() - k,
    {
        proof {
            assert(views(r@)[k as int] == r@[k as int]@);
        }
        k = k + 1;
    }
    proof {
        if k < r@.len() {
            assert(views(r@)[k as int] == r@[k as int]@);
        }
    }
    if k < r.len() && bytes_eq(&r[k], &p) {
        // Already present: keep the list as it is.
        proof {
            assert(views(r@)[k as int] == p@);
            assert(seq_contains(views(r@), p@));
        }
        return ;
    }
    proof {
        // `p` is new, and it belongs exactly at `k`.
        if k < r@.len() {
            assert(!lex_lt(r@[k as int]@, p@) && r@[k as int]@ != p@);
            lemma_lex_connex(r@[k as int]@, p@);
        }
    }
    let ghost gp = p@;
    r.insert(k, p);
    proof {
        let new_vs = views(r@);
        assert(new_vs.len() == old_vs.len() + 1);
        assert forall|i: int| 0 <= i < new_vs.len() implies new_vs[i] == (if i < k {
            old_vs[i]
        } else if i == k {
            gp
        } else {
            old_vs[i - 1]
        }) by {
            assert(new_vs[i] == r@[i]@);
        }
        assert forall|i: int, j: int| 0 <= i < j < new_vs.len() implies lex_lt(
            #[trigger] new_vs[i],
            #[trigger] new_vs[j],
        ) by {
            if j < k {
            } else if j == k {
                assert(new_vs[i] == old_vs[i] && lex_lt(old_vs[i], gp));
            } else if i == k {
                // p < r[k] <= everything after it.
                assert(lex_lt(gp, old_vs[k as int]));
                if j - 1 > k {
                    lemma_lex_trans(gp, old_vs[k as int], old_vs[j - 1]);
                }
            } else if i < k {
                assert(lex_lt(old_vs[i], old_vs[j - 1])) by {
                    if i == j - 1 {
                        assert(lex_lt(old_vs[i], gp));
                        assert(lex_lt(gp, old_vs[k as int]));
                    }
                }
                if i == j - 1 {
                    lemma_lex_trans(old_vs[i], gp, old_vs[k as int]);
                }
            }
        }
        assert forall|x: Seq<u8>|
            seq_contains(new_vs, x) <==> (seq_contains(old_vs, x) || x == gp) by {
            if seq_contains(new_vs, x) {
                let i = choose|i: int| 0 <= i < new_vs.len() && new_vs[i] == x;
                if i < k {
                    assert(old_vs[i] == x);
                } else if i > k {
                    assert(old_vs[i - 1] == x);
                }
            }
            if seq_contains(old_vs, x) {
                let i = choose|i: int| 0 <= i < old_vs.len() && old_vs[i] == x;
                if i < k {
                    assert(new_vs[i] == x);
                } else {
                    assert(new_vs[i + 1] == x);
                }
            }
            if x == gp {
                assert(new_vs[k as int] == x);
            }
        }
    }
}

/// Orders the traversal's canonical paths and drops repeats: the result is
/// strictly sorted, and it holds a value exactly when the input holds it —
/// a file reachable twice appears once.
pub fn sort_dedup_paths(paths: &Vec<Vec<u8>>) -> (r: Vec<Vec<u8>>)
    ensures
        strictly_sorted(views(r@)),
        forall|x: Seq<u8>| seq_contains(views(r@), x) <==> seq_contains(views(paths@), x),
{
    let mut r: Vec<Vec<u8>> = Vec::new();
    let mut i: usize = 0;
    while i < paths.len()
        invariant
            i <= paths@.len(),
            strictly_sorted(views(r@)),
            forall|x: Seq<u8>|
                seq_contains(views(r@), x) <==> seq_contains(
                    views(paths@).subrange(0, i as int),
                    x,
                ),
        decreases paths@.len() - i,
    {
        let ghost pre = views(paths@).subrange(0, i as int);
        let p = subrange_vec(&paths[i], 0, paths[i].len());
        proof {
            assert(p@ =~= paths@[i as int]@);
            assert(views(paths@)[i as int] == paths@[i as int]@);
        }
        insert_unique(&mut r, p);
        proof {
            let pre1 = views(paths@).subrange(0, i + 1);
            assert forall|x: Seq<u8>|
                seq_contains(views(r@), x) <==> seq_contains(pre1, x) by {
                assert(pre1 =~~= pre.push(paths@[i as int]@));
                if seq_contains(pre, x) {
                    let t = choose|t: int| 0 <= t < pre.len() && pre[t] == x;
                    assert(pre1[t] == x);
                }
                if seq_contains(pre1, x) {
                    let t = choose|t: int| 0 <= t < pre1.len() && pre1[t] == x;
                    if t < pre.len() {
                        assert(pre[t] == x);
                    }
                }
                if x == paths@[i as int]@ {
                    assert(pre1[pre.len() as int] == x);
                }
            }
        }
        i = i + 1;
    }
    proof {
        assert(views(paths@).subrange(0, paths@.len() as int) =~~= views(paths@));
    }
    r
}

} // verus!
