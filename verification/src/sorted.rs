use crate::seqs::{lemma_filter_take_ends, lemma_filter_take_step};
use crate::term::Term;
use vstd::prelude::*;

verus! {

/// The terms stand in strictly ascending order of their packed words, so
/// none occurs twice.
pub open spec fn strictly_increasing(s: Seq<Term>) -> bool {
    forall|i: int, j: int| 0 <= i < j < s.len() ==> s[i].0 < s[j].0
}

/// Puts `t` into the ascending vector unless it is there already.
pub fn insert_unique(v: &mut Vec<Term>, t: Term)
    requires
        strictly_increasing(old(v)@),
    ensures
        strictly_increasing(final(v)@),
        forall|x: Term| final(v)@.contains(x) <==> old(v)@.contains(x) || x == t,
{
    let mut i: usize = 0;
    while i < v.len() && v[i].0 < t.0
        invariant
            i <= v.len(),
            forall|j: int| 0 <= j < i ==> v[j].0 < t.0,
        decreases v.len() - i,
    {
        i += 1;
    }
    if i < v.len() && v[i].0 == t.0 {
        assert(v@[i as int] == t);
        return ;
    }
    let ghost before = v@;
    v.insert(i, t);
    proof {
        let after = v@;
        assert(after == before.insert(i as int, t));
        assert forall|x: Term| after.contains(x) <==> before.contains(x) || x == t by {
            if after.contains(x) {
                let j = choose|j: int| 0 <= j < after.len() && after[j] == x;
                if j < i {
                    assert(before[j] == x);
                } else if j > i {
                    assert(before[j - 1] == x);
                }
            }
            if before.contains(x) {
                let j = choose|j: int| 0 <= j < before.len() && before[j] == x;
                if j < i {
                    assert(after[j] == x);
                } else {
                    assert(after[j + 1] == x);
                }
            }
            if x == t {
                assert(after[i as int] == x);
            }
        }
        assert forall|a: int, b: int| 0 <= a < b < after.len() implies after[a].0 < after[b].0 by {
            let pa = if a < i { a } else { a - 1 };
            let pb = if b < i { b } else { b - 1 };
            if a != i && b != i {
                assert(before[pa].0 < before[pb].0);
            } else if a == i {
                assert(after[b] == before[b - 1]);
            } else {
                assert(after[a] == before[a]);
            }
        }
    }
}

/// The terms of `v` in ascending order, each once.
pub fn sort_dedup(v: &Vec<Term>) -> (r: Vec<Term>)
    ensures
        strictly_increasing(r@),
        forall|t: Term| r@.contains(t) <==> v@.contains(t),
{
    let mut r: Vec<Term> = Vec::new();
    let mut i: usize = 0;
    while i < v.len()
        invariant
            i <= v.len(),
            strictly_increasing(r@),
            forall|t: Term| r@.contains(t) <==> exists|j: int| 0 <= j < i && v@[j] == t,
        decreases v.len() - i,
    {
        insert_unique(&mut r, v[i]);
        i += 1;
    }
    r
}

/// Two ascending sequences that hold the same terms are the same sequence.
pub proof fn lemma_increasing_unique(a: Seq<Term>, b: Seq<Term>)
    requires
        strictly_increasing(a),
        strictly_increasing(b),
        forall|t: Term| #[trigger] a.contains(t) <==> b.contains(t),
    ensures
        a == b,
    decreases a.len(),
{
    if a.len() == 0 {
        if b.len() > 0 {
            assert(b.contains(b[0]));
            assert(a.contains(b[0]));
        }
        assert(a =~= b);
    } else {
        let x = a.last();
        assert(a[a.len() - 1] == x);
        assert(a.contains(x));
        assert(b.contains(x));
        let y = b.last();
        assert(b[b.len() - 1] == y);
        assert(b.contains(y));
        assert(a.contains(y));
        let i = choose|i: int| 0 <= i < a.len() && a[i] == y;
        let j = choose|j: int| 0 <= j < b.len() && b[j] == x;
        assert(y.0 <= x.0) by {
            if i < a.len() - 1 {
                assert(a[i].0 < a[a.len() - 1].0);
            }
        }
        assert(x.0 <= y.0) by {
            if j < b.len() - 1 {
                assert(b[j].0 < b[b.len() - 1].0);
            }
        }
        assert(x == y);
        let a1 = a.drop_last();
        let b1 = b.drop_last();
        assert forall|t: Term| #[trigger] a1.contains(t) <==> b1.contains(t) by {
            if a1.contains(t) {
                let k = choose|k: int| 0 <= k < a1.len() && a1[k] == t;
                assert(a[k] == t);
                assert(a[k].0 < a[a.len() - 1].0);
                assert(a.contains(t));
                assert(b.contains(t));
                let l = choose|l: int| 0 <= l < b.len() && b[l] == t;
                assert(l < b.len() - 1);
                assert(b1[l] == t);
            }
            if b1.contains(t) {
                let k = choose|k: int| 0 <= k < b1.len() && b1[k] == t;
                assert(b[k] == t);
                assert(b[k].0 < b[b.len() - 1].0);
                assert(b.contains(t));
                assert(a.contains(t));
                let l = choose|l: int| 0 <= l < a.len() && a[l] == t;
                assert(l < a.len() - 1);
                assert(a1[l] == t);
            }
        }
        lemma_increasing_unique(a1, b1);
        assert(a =~= a1.push(x));
        assert(b =~= b1.push(y));
    }
}

/// What passes a filter of an ascending sequence is ascending.
pub proof fn lemma_filter_increasing(s: Seq<Term>, p: spec_fn(Term) -> bool, n: int)
    requires
        strictly_increasing(s),
        0 <= n <= s.len(),
    ensures
        strictly_increasing(s.take(n).filter(p)),
        forall|j: int|
            0 <= j < s.take(n).filter(p).len() && n < s.len() ==> (#[trigger] s.take(n).filter(
                p,
            )[j]).0 < s[n].0,
    decreases n,
{
    let out = s.take(n).filter(p);
    if n == 0 {
        lemma_filter_take_ends(s, p);
    } else {
        lemma_filter_increasing(s, p, n - 1);
        lemma_filter_take_step(s, p, n - 1);
        let before = s.take(n - 1).filter(p);
        assert forall|j: int| 0 <= j < before.len() && n < s.len() implies (#[trigger] before[j]).0
            < s[n].0 by {
            assert(before[j].0 < s[n - 1].0);
            assert(s[n - 1].0 < s[n].0);
        }
    }
}

} // verus!
