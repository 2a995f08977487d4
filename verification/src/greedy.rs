use crate::cover::covered_by;
use crate::select::rank_of;
use crate::seqs::{lemma_filter_contains, lemma_filter_take_ends, lemma_filter_take_step};
use crate::term::Term;
use vstd::prelude::*;

verus! {

/// Number of assignments among the first `n` of `ms` that the term covers.
pub open spec fn gain(t: Term, ms: Seq<u32>, n: int) -> int
    decreases n,
{
    if n <= 0 {
        0
    } else {
        gain(t, ms, n - 1) + if t.covers(ms[n - 1]) {
            1int
        } else {
            0int
        }
    }
}

/// `a` is the better pick: it covers more of `ms`, or as many with a lower rank.
pub open spec fn better_pick(a: Term, b: Term, ms: Seq<u32>) -> bool {
    let ga = gain(a, ms, ms.len() as int);
    let gb = gain(b, ms, ms.len() as int);
    ga > gb || (ga == gb && rank_of(a) < rank_of(b))
}

/// The first of the first `n` candidates than which none of them is a
/// better pick.
pub open spec fn best_pick(cands: Seq<Term>, ms: Seq<u32>, n: int) -> int
    decreases n,
{
    if n <= 1 {
        0
    } else {
        let b = best_pick(cands, ms, n - 1);
        if better_pick(cands[n - 1], cands[b], ms) {
            n - 1
        } else {
            b
        }
    }
}

/// The test that picks the assignments that the term does not cover.
pub open spec fn not_covered_by(t: Term) -> spec_fn(u32) -> bool {
    |m: u32| !t.covers(m)
}

/// The picks of the greedy walk: the best pick for `ms`, then the picks
/// for what it leaves uncovered, until nothing is left. The walk covers
/// `ms` where the candidates do, but not always at the least cost.
pub open spec fn greedy_picks(cands: Seq<Term>, ms: Seq<u32>) -> Seq<Term>
    decreases ms.len(),
{
    if ms.len() == 0 || cands.len() == 0 {
        Seq::empty()
    } else {
        let t = cands[best_pick(cands, ms, cands.len() as int)];
        let rest = ms.filter(not_covered_by(t));
        if rest.len() < ms.len() {
            seq![t] + greedy_picks(cands, rest)
        } else {
            Seq::empty()
        }
    }
}

/// The greedy walk picks candidates only.
pub proof fn lemma_greedy_from_candidates(cands: Seq<Term>, ms: Seq<u32>, x: Term)
    requires
        greedy_picks(cands, ms).contains(x),
    ensures
        cands.contains(x),
    decreases ms.len(),
{
    if ms.len() != 0 && cands.len() != 0 {
        lemma_best_pick(cands, ms, cands.len() as int);
        let t = cands[best_pick(cands, ms, cands.len() as int)];
        let rest = ms.filter(not_covered_by(t));
        if rest.len() < ms.len() {
            let tail = greedy_picks(cands, rest);
            let all = seq![t] + tail;
            let a = choose|a: int| 0 <= a < all.len() && all[a] == x;
            if a == 0 {
                assert(cands.contains(t));
            } else {
                assert(tail[a - 1] == x);
                lemma_greedy_from_candidates(cands, rest, x);
            }
        }
    }
}

/// The best pick is one of the candidates, and none is a better pick.
pub proof fn lemma_best_pick(cands: Seq<Term>, ms: Seq<u32>, n: int)
    requires
        1 <= n <= cands.len(),
    ensures
        0 <= best_pick(cands, ms, n) < n,
        forall|j: int|
            0 <= j < n ==> !better_pick(
                #[trigger] cands[j],
                cands[best_pick(cands, ms, n)],
                ms,
            ),
    decreases n,
{
    if n > 1 {
        lemma_best_pick(cands, ms, n - 1);
    }
}

/// A term that covers one of the first `n` assignments has a gain there.
pub proof fn lemma_gain_positive(t: Term, ms: Seq<u32>, n: int, k: int)
    requires
        0 <= k < n <= ms.len(),
        t.covers(ms[k]),
    ensures
        gain(t, ms, n) >= 1,
        gain(t, ms, n) <= n,
    decreases n,
{
    lemma_gain_bounds(t, ms, n);
    if k < n - 1 {
        lemma_gain_positive(t, ms, n - 1, k);
    } else {
        lemma_gain_bounds(t, ms, n - 1);
    }
}

/// A term covers none at least and all at most of the first `n` assignments.
pub proof fn lemma_gain_bounds(t: Term, ms: Seq<u32>, n: int)
    requires
        0 <= n,
    ensures
        0 <= gain(t, ms, n) <= n,
    decreases n,
{
    if n > 0 {
        lemma_gain_bounds(t, ms, n - 1);
    }
}

/// What a pick leaves uncovered is as much shorter as its gain.
pub proof fn lemma_gain_shortens(t: Term, ms: Seq<u32>, n: int)
    requires
        0 <= n <= ms.len(),
    ensures
        ms.take(n).filter(not_covered_by(t)).len() + gain(t, ms, n) == n,
    decreases n,
{
    let pred = not_covered_by(t);
    if n == 0 {
        lemma_filter_take_ends(ms, pred);
    } else {
        lemma_gain_shortens(t, ms, n - 1);
        lemma_filter_take_step(ms, pred, n - 1);
    }
}

/// Number of assignments of `ms` that the term covers.
pub fn covered_count(t: Term, ms: &Vec<u32>) -> (r: usize)
    ensures
        r == gain(t, ms@, ms.len() as int),
{
    let mut r: usize = 0;
    let mut k: usize = 0;
    while k < ms.len()
        invariant
            k <= ms.len(),
            r == gain(t, ms@, k as int),
            r <= k,
        decreases ms.len() - k,
    {
        if t.includes(ms[k]) {
            r += 1;
        }
        k += 1;
    }
    r
}

/// The index of the best pick among the candidates.
pub fn best_candidate(cands: &Vec<Term>, ms: &Vec<u32>) -> (b: usize)
    requires
        cands.len() > 0,
    ensures
        b == best_pick(cands@, ms@, cands.len() as int),
        b < cands.len(),
        forall|j: int| 0 <= j < cands.len() ==> !better_pick(#[trigger] cands[j], cands[b as int], ms@),
{
    let mut b: usize = 0;
    let mut b_gain = covered_count(cands[0], ms);
    let mut b_rank = cands[0].rank();
    let mut i: usize = 1;
    while i < cands.len()
        invariant
            1 <= i <= cands.len(),
            b < i,
            b == best_pick(cands@, ms@, i as int),
            b_gain == gain(cands[b as int], ms@, ms.len() as int),
            b_rank == rank_of(cands[b as int]),
        decreases cands.len() - i,
    {
        let g = covered_count(cands[i], ms);
        let r = cands[i].rank();
        if g > b_gain || (g == b_gain && r < b_rank) {
            b = i;
            b_gain = g;
            b_rank = r;
        }
        i += 1;
    }
    proof {
        lemma_best_pick(cands@, ms@, cands.len() as int);
    }
    b
}

/// The assignments of `ms` that the term does not cover.
pub fn remove_covered(ms: &Vec<u32>, t: Term) -> (r: Vec<u32>)
    ensures
        r@ == ms@.filter(not_covered_by(t)),
{
    let ghost pred = not_covered_by(t);
    let mut r: Vec<u32> = Vec::new();
    let mut k: usize = 0;
    proof {
        lemma_filter_take_ends(ms@, pred);
    }
    while k < ms.len()
        invariant
            k <= ms.len(),
            pred == not_covered_by(t),
            r@ == ms@.take(k as int).filter(pred),
        decreases ms.len() - k,
    {
        proof {
            lemma_filter_take_step(ms@, pred, k as int);
        }
        if !t.includes(ms[k]) {
            r.push(ms[k]);
        }
        k += 1;
    }
    r
}

/// A selection that covers `ms`, found by taking the best pick again and
/// again. It is not always the cheapest one.
pub fn greedy_select(cands: &Vec<Term>, ms: Vec<u32>) -> (picks: Vec<Term>)
    requires
        forall|k: int| 0 <= k < ms.len() ==> covered_by(#[trigger] ms[k], cands@),
    ensures
        picks@ == greedy_picks(cands@, ms@),
        forall|k: int| 0 <= k < ms.len() ==> covered_by(#[trigger] ms[k], picks@),
        forall|t: Term| #[trigger] picks@.contains(t) ==> cands@.contains(t),
{
    let ghost all = ms@;
    let mut left = ms;
    let mut picks: Vec<Term> = Vec::new();
    while left.len() > 0
        invariant
            greedy_picks(cands@, all) == picks@ + greedy_picks(cands@, left@),
            forall|k: int|
                0 <= k < all.len() ==> covered_by(#[trigger] all[k], picks@) || left@.contains(
                    all[k],
                ),
            forall|k: int| 0 <= k < left.len() ==> covered_by(#[trigger] left[k], cands@),
            forall|t: Term| #[trigger] picks@.contains(t) ==> cands@.contains(t),
        decreases left.len(),
    {
        proof {
            let j = choose|j: int| 0 <= j < cands.len() && (#[trigger] cands[j]).covers(left[0]);
        }
        let b = best_candidate(cands, &left);
        let t = cands[b];
        let rest = remove_covered(&left, t);
        let ghost before = picks@;
        let ghost was_left = left@;
        proof {
            let j = choose|j: int| 0 <= j < cands.len() && (#[trigger] cands[j]).covers(left[0]);
            lemma_gain_positive(cands[j], was_left, was_left.len() as int, 0);
            lemma_gain_shortens(t, was_left, was_left.len() as int);
            lemma_filter_take_ends(was_left, not_covered_by(t));
            assert(rest@.len() < was_left.len());
            assert(greedy_picks(cands@, was_left) == seq![t] + greedy_picks(cands@, rest@));
        }
        picks.push(t);
        left = rest;
        proof {
            assert(picks@ + greedy_picks(cands@, left@) =~= before + (seq![t] + greedy_picks(
                cands@,
                left@,
            )));
            assert(picks@[before.len() as int] == t);
            assert forall|k: int| 0 <= k < all.len() implies covered_by(#[trigger] all[k], picks@)
                || left@.contains(all[k]) by {
                if covered_by(all[k], before) {
                    let a = choose|a: int| 0 <= a < before.len() && (#[trigger] before[a]).covers(all[k]);
                    assert(picks@[a].covers(all[k]));
                } else {
                    lemma_filter_contains(was_left, not_covered_by(t), all[k]);
                    if t.covers(all[k]) {
                        assert(picks@[before.len() as int].covers(all[k]));
                    }
                }
            }
            assert forall|k: int| 0 <= k < left.len() implies covered_by(
                #[trigger] left[k],
                cands@,
            ) by {
                assert(left@.contains(left[k]));
                lemma_filter_contains(was_left, not_covered_by(t), left[k]);
                let a = choose|a: int| 0 <= a < was_left.len() && was_left[a] == left[k];
            }
            assert forall|x: Term| #[trigger] picks@.contains(x) implies cands@.contains(x) by {
                let a = choose|a: int| 0 <= a < picks@.len() && picks@[a] == x;
                if a < before.len() {
                    assert(before[a] == x);
                    assert(before.contains(x));
                } else {
                    assert(cands@[b as int] == x);
                }
            }
        }
    }
    proof {
        assert(greedy_picks(cands@, left@) == Seq::<Term>::empty());
        assert(picks@ + Seq::<Term>::empty() =~= picks@);
        assert forall|k: int| 0 <= k < all.len() implies covered_by(#[trigger] all[k], picks@) by {
            if left@.contains(all[k]) {
                let a = choose|a: int| 0 <= a < left@.len() && left@[a] == all[k];
            }
        }
    }
    picks
}

} // verus!
