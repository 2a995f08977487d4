use crate::bits::{lemma_popcount_bound, low_mask, low_word};
use crate::cover::covered_by;
use crate::term::Term;
use vstd::prelude::*;

verus! {

/// The largest number of candidates for which the cheapest selection is
/// found by trying every selection.
pub const EXACT_LIMIT: usize = 16;

/// The selection `sel` holds candidate `i`: bit `i` of the word is set.
pub open spec fn picked(sel: u32, i: int) -> bool {
    0 <= i < 32 && (sel >> (i as u32)) & 1 == 1
}

/// A candidate of the selection covers the assignment.
pub open spec fn picked_covers(cands: Seq<Term>, sel: u32, m: u32) -> bool {
    exists|i: int| 0 <= i < cands.len() && picked(sel, i) && (#[trigger] cands[i]).covers(m)
}

/// The selection covers every assignment of `ms`.
pub open spec fn selection_covers(cands: Seq<Term>, sel: u32, ms: Seq<u32>) -> bool {
    forall|k: int| 0 <= k < ms.len() ==> picked_covers(cands, sel, #[trigger] ms[k])
}

/// Number of literals of the term over `bits` variables.
pub open spec fn literal_count(t: Term, bits: nat) -> int {
    bits - t.order()
}

/// The term's rank: eight for each don't-care and one for each asserted one.
pub open spec fn rank_of(t: Term) -> int {
    (t.order() * 8 + t.weight()) as int
}

/// Number of literals of the selection's candidates among the first `n`.
pub open spec fn selection_literals(cands: Seq<Term>, sel: u32, bits: nat, n: int) -> int
    decreases n,
{
    if n <= 0 {
        0
    } else {
        selection_literals(cands, sel, bits, n - 1) + if picked(sel, n - 1) {
            literal_count(cands[n - 1], bits)
        } else {
            0
        }
    }
}

/// Sum of the ranks of the selection's candidates among the first `n`.
pub open spec fn selection_rank(cands: Seq<Term>, sel: u32, n: int) -> int
    decreases n,
{
    if n <= 0 {
        0
    } else {
        selection_rank(cands, sel, n - 1) + if picked(sel, n - 1) {
            rank_of(cands[n - 1])
        } else {
            0
        }
    }
}

/// Selection `a` is at least as good as `b`: it has fewer literals; or as
/// many and a lower rank; or both alike and it is not the larger word.
pub open spec fn prefers(cands: Seq<Term>, bits: nat, a: u32, b: u32) -> bool {
    let n = cands.len() as int;
    let la = selection_literals(cands, a, bits, n);
    let lb = selection_literals(cands, b, bits, n);
    let ra = selection_rank(cands, a, n);
    let rb = selection_rank(cands, b, n);
    la < lb || (la == lb && (ra < rb || (ra == rb && a <= b)))
}

/// `sel` is the best selection of candidates that covers `ms`.
pub open spec fn is_optimal(cands: Seq<Term>, bits: nat, ms: Seq<u32>, sel: u32) -> bool {
    &&& sel <= low_mask(cands.len())
    &&& selection_covers(cands, sel, ms)
    &&& forall|s: u32|
        s <= low_mask(cands.len()) && #[trigger] selection_covers(cands, s, ms) ==> prefers(
            cands,
            bits,
            sel,
            s,
        )
}

/// Whether a candidate of the selection covers the assignment.
fn selection_covers_one(cands: &Vec<Term>, sel: u32, m: u32) -> (r: bool)
    requires
        cands.len() <= 32,
    ensures
        r == picked_covers(cands@, sel, m),
{
    let mut i: usize = 0;
    while i < cands.len()
        invariant
            i <= cands.len(),
            cands.len() <= 32,
            forall|j: int| 0 <= j < i ==> !(picked(sel, j) && (#[trigger] cands[j]).covers(m)),
        decreases cands.len() - i,
    {
        if (sel >> (i as u32)) & 1 == 1 && cands[i].includes(m) {
            assert(picked(sel, i as int));
            return true;
        }
        i += 1;
    }
    false
}

/// Whether the selection covers every assignment of `ms`.
pub fn selection_covers_all(cands: &Vec<Term>, sel: u32, ms: &Vec<u32>) -> (r: bool)
    requires
        cands.len() <= 32,
    ensures
        r == selection_covers(cands@, sel, ms@),
{
    let mut k: usize = 0;
    while k < ms.len()
        invariant
            k <= ms.len(),
            cands.len() <= 32,
            forall|j: int| 0 <= j < k ==> picked_covers(cands@, sel, #[trigger] ms[j]),
        decreases ms.len() - k,
    {
        if !selection_covers_one(cands, sel, ms[k]) {
            return false;
        }
        k += 1;
    }
    true
}

/// The number of literals and the rank of a selection.
pub fn selection_cost(bits: usize, cands: &Vec<Term>, sel: u32) -> (r: (u32, u32))
    requires
        bits <= 32,
        cands.len() <= 32,
        forall|i: int| 0 <= i < cands.len() ==> (#[trigger] cands[i]).order() <= bits,
    ensures
        r.0 == selection_literals(cands@, sel, bits as nat, cands.len() as int),
        r.1 == selection_rank(cands@, sel, cands.len() as int),
{
    let mut literals: u32 = 0;
    let mut rank: u32 = 0;
    let mut i: usize = 0;
    while i < cands.len()
        invariant
            bits <= 32,
            i <= cands.len(),
            cands.len() <= 32,
            forall|j: int| 0 <= j < cands.len() ==> (#[trigger] cands[j]).order() <= bits,
            literals == selection_literals(cands@, sel, bits as nat, i as int),
            rank == selection_rank(cands@, sel, i as int),
            literals <= 32 * i,
            rank <= 288 * i,
        decreases cands.len() - i,
    {
        if (sel >> (i as u32)) & 1 == 1 {
            let t = cands[i];
            proof {
                lemma_popcount_bound(t.mask(), 32);
                lemma_popcount_bound(t.value() & !t.mask(), 32);
            }
            literals = literals + (bits as u32 - t.upper().count_ones());
            rank = rank + t.rank();
        }
        i += 1;
    }
    (literals, rank)
}

/// The best selection among at most sixteen candidates that covers `ms`,
/// found by trying them all.
pub fn exact_select(bits: usize, cands: &Vec<Term>, ms: &Vec<u32>) -> (sel: u32)
    requires
        bits <= 32,
        cands.len() <= EXACT_LIMIT,
        forall|i: int| 0 <= i < cands.len() ==> (#[trigger] cands[i]).order() <= bits,
        forall|k: int| 0 <= k < ms.len() ==> covered_by(#[trigger] ms[k], cands@),
    ensures
        is_optimal(cands@, bits as nat, ms@, sel),
{
    let ghost n = cands.len() as u32;
    let full = low_word(cands.len());
    proof {
        assert forall|k: int| 0 <= k < ms.len() implies picked_covers(
            cands@,
            full,
            #[trigger] ms[k],
        ) by {
            let j = choose|j: int| 0 <= j < cands.len() && (#[trigger] cands[j]).covers(ms[k]);
            let jj = j as u32;
            assert(n <= 16 && jj < n ==> ((((1u32 << n) - 1) as u32) >> jj) & 1 == 1)
                by (bit_vector);
            assert(picked(full, j));
        }
    }
    let mut best: u32 = full;
    let cost = selection_cost(bits, cands, full);
    let mut best_literals = cost.0;
    let mut best_rank = cost.1;
    let mut s: u32 = 0;
    while s < full
        invariant
            bits <= 32,
            cands.len() <= 16,
            s <= full,
            full == low_mask(cands.len() as nat),
            forall|i: int| 0 <= i < cands.len() ==> (#[trigger] cands[i]).order() <= bits,
            best <= full,
            selection_covers(cands@, best, ms@),
            best_literals == selection_literals(cands@, best, bits as nat, cands.len() as int),
            best_rank == selection_rank(cands@, best, cands.len() as int),
            prefers(cands@, bits as nat, best, full),
            forall|t: u32|
                t < s && #[trigger] selection_covers(cands@, t, ms@) ==> prefers(
                    cands@,
                    bits as nat,
                    best,
                    t,
                ),
        decreases full - s,
    {
        if selection_covers_all(cands, s, ms) {
            let cost = selection_cost(bits, cands, s);
            if cost.0 < best_literals || (cost.0 == best_literals && (cost.1 < best_rank || (cost.1
                == best_rank && s < best))) {
                best = s;
                best_literals = cost.0;
                best_rank = cost.1;
            }
        }
        s += 1;
    }
    best
}

/// A selection that holds no more candidates than another has no more
/// literals and no higher rank.
pub proof fn lemma_selection_monotone(cands: Seq<Term>, a: u32, b: u32, bits: nat, n: int)
    requires
        0 <= n <= cands.len(),
        forall|j: int| 0 <= j < n && picked(a, j) ==> picked(b, j),
        forall|j: int| 0 <= j < cands.len() ==> (#[trigger] cands[j]).order() <= bits,
    ensures
        selection_literals(cands, a, bits, n) <= selection_literals(cands, b, bits, n),
        selection_rank(cands, a, n) <= selection_rank(cands, b, n),
    decreases n,
{
    if n > 0 {
        lemma_selection_monotone(cands, a, b, bits, n - 1);
        assert(cands[n - 1].order() <= bits);
    }
}

/// Taking one candidate out of a selection gives a smaller word that holds
/// the other candidates still, with no more literals and no higher rank.
pub proof fn lemma_drop_pick(cands: Seq<Term>, sel: u32, bits: nat, i: int)
    requires
        0 <= i < cands.len(),
        picked(sel, i),
        forall|j: int| 0 <= j < cands.len() ==> (#[trigger] cands[j]).order() <= bits,
    ensures
        ({
            let rest = sel & !(1u32 << (i as u32));
            &&& rest < sel
            &&& forall|j: int| picked(rest, j) == (picked(sel, j) && j != i)
            &&& selection_literals(cands, rest, bits, cands.len() as int) <= selection_literals(
                cands,
                sel,
                bits,
                cands.len() as int,
            )
            &&& selection_rank(cands, rest, cands.len() as int) <= selection_rank(
                cands,
                sel,
                cands.len() as int,
            )
        }),
{
    let ii = i as u32;
    let rest = sel & !(1u32 << ii);
    assert(ii < 32 && (sel >> ii) & 1 == 1 ==> (sel & !(1u32 << ii)) < sel) by (bit_vector);
    assert forall|j: int| picked(rest, j) == (picked(sel, j) && j != i) by {
        if 0 <= j < 32 {
            let jj = j as u32;
            assert(ii < 32 && jj < 32 ==> ((((sel & !(1u32 << ii)) >> jj) & 1 == 1) <==> ((sel
                >> jj) & 1 == 1 && jj != ii))) by (bit_vector);
        }
    }
    lemma_selection_monotone(cands, rest, sel, bits, cands.len() as int);
}

/// Each candidate of the best selection is needed: some assignment of
/// `ms` is covered by it and by no other candidate of the selection.
pub proof fn lemma_selected_is_needed(cands: Seq<Term>, bits: nat, ms: Seq<u32>, sel: u32, i: int) -> (r:
    int)
    requires
        is_optimal(cands, bits, ms, sel),
        0 <= i < cands.len(),
        picked(sel, i),
        forall|j: int| 0 <= j < cands.len() ==> (#[trigger] cands[j]).order() <= bits,
    ensures
        0 <= r < ms.len(),
        cands[i].covers(ms[r]),
        forall|a: int|
            0 <= a < cands.len() && picked(sel, a) && (#[trigger] cands[a]).covers(ms[r]) ==> a == i,
{
    lemma_drop_pick(cands, sel, bits, i);
    let rest = sel & !(1u32 << (i as u32));
    if selection_covers(cands, rest, ms) {
        assert(prefers(cands, bits, sel, rest));
    }
    let r = choose|r: int| 0 <= r < ms.len() && !picked_covers(cands, rest, #[trigger] ms[r]);
    assert(picked_covers(cands, sel, ms[r]));
    let w = choose|w: int| 0 <= w < cands.len() && picked(sel, w) && (#[trigger] cands[w]).covers(ms[r]);
    assert forall|a: int|
        0 <= a < cands.len() && picked(sel, a) && (#[trigger] cands[a]).covers(ms[r]) implies a
        == i by {
        if a != i {
            assert(picked(rest, a) && cands[a].covers(ms[r]));
        }
    }
    r
}

/// The candidates of a selection.
pub open spec fn in_selection(t: Term, cands: Seq<Term>, sel: u32) -> bool {
    exists|i: int| 0 <= i < cands.len() && picked(sel, i) && #[trigger] cands[i] == t
}

/// The candidates that the selection holds, in their order.
pub fn selected_terms(cands: &Vec<Term>, sel: u32) -> (r: Vec<Term>)
    requires
        cands.len() <= 32,
    ensures
        forall|t: Term| #[trigger] r@.contains(t) <==> in_selection(t, cands@, sel),
{
    let mut r: Vec<Term> = Vec::new();
    let mut i: usize = 0;
    while i < cands.len()
        invariant
            i <= cands.len(),
            cands.len() <= 32,
            forall|t: Term|
                #[trigger] r@.contains(t) <==> exists|j: int|
                    0 <= j < i && picked(sel, j) && #[trigger] cands[j] == t,
        decreases cands.len() - i,
    {
        let ghost before = r@;
        let take = (sel >> (i as u32)) & 1 == 1;
        if take {
            r.push(cands[i]);
        }
        i += 1;
        proof {
            assert forall|t: Term|
                #[trigger] r@.contains(t) <==> exists|j: int|
                    0 <= j < i && picked(sel, j) && #[trigger] cands[j] == t by {
                if r@.contains(t) {
                    let a = choose|a: int| 0 <= a < r@.len() && r@[a] == t;
                    if a < before.len() {
                        assert(before[a] == t);
                        assert(before.contains(t));
                        let j = choose|j: int|
                            0 <= j < i - 1 && picked(sel, j) && #[trigger] cands[j] == t;
                        assert(0 <= j < i && picked(sel, j) && cands[j] == t);
                    } else {
                        assert(picked(sel, i - 1) && cands[i - 1] == t);
                    }
                }
                if exists|j: int| 0 <= j < i && picked(sel, j) && #[trigger] cands[j] == t {
                    let j = choose|j: int| 0 <= j < i && picked(sel, j) && #[trigger] cands[j] == t;
                    if j < i - 1 {
                        assert(before.contains(t));
                        let a = choose|a: int| 0 <= a < before.len() && before[a] == t;
                        assert(r@[a] == t);
                    } else {
                        assert(r@[before.len() as int] == t);
                    }
                }
            }
        }
    }
    r
}

} // verus!
