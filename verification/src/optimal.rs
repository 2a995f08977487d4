use crate::bits::{lemma_low_mask_step, low_mask};
use crate::cover::{
    candidates_of, covered_by, covering_some, covers_one_of, essential_among, essentials_of,
    in_minimal_cover, is_essential, lemma_cover_from_primes, lemma_covered_by_member,
    lemma_optimal_unique, residual_of, sole_coverer, solved_exactly, uncovered_by,
};
use crate::implicant::is_implicant;
use crate::minimize::is_cover_list;
use crate::sorted::{lemma_filter_increasing, strictly_increasing};
use crate::select::{
    in_selection, is_optimal, literal_count, picked, picked_covers, prefers, rank_of,
    selection_covers, selection_literals, selection_rank,
};
use crate::seqs::{lemma_filter_contains, lemma_filter_take_ends, lemma_filter_take_step};
use crate::term::Term;
use vstd::prelude::*;

verus! {

/// The sum of what `w` gives for the first `n` terms.
pub open spec fn total(s: Seq<Term>, w: spec_fn(Term) -> int, n: int) -> int
    decreases n,
{
    if n <= 0 {
        0
    } else {
        total(s, w, n - 1) + w(s[n - 1])
    }
}

/// The sum of what `w` gives for those among the first `n` terms that
/// pass the test.
pub open spec fn passing_total(s: Seq<Term>, q: spec_fn(Term) -> bool, w: spec_fn(Term) -> int, n: int) -> int
    decreases n,
{
    if n <= 0 {
        0
    } else {
        passing_total(s, q, w, n - 1) + if q(s[n - 1]) {
            w(s[n - 1])
        } else {
            0
        }
    }
}

/// The number of literals of a term over `bits` variables, as a function
/// of the term.
pub open spec fn literals_over(bits: nat) -> spec_fn(Term) -> int {
    |t: Term| literal_count(t, bits)
}

/// The rank of a term, as a function of the term.
pub open spec fn ranks() -> spec_fn(Term) -> int {
    |t: Term| rank_of(t)
}

/// Number of literals of the terms together, over `bits` variables.
pub open spec fn literal_total(s: Seq<Term>, bits: nat) -> int {
    total(s, literals_over(bits), s.len() as int)
}

/// Sum of the ranks of the terms.
pub open spec fn rank_total(s: Seq<Term>) -> int {
    total(s, ranks(), s.len() as int)
}

/// The test that a term belongs to the sequence.
pub open spec fn member_of(s: Seq<Term>) -> spec_fn(Term) -> bool {
    |t: Term| s.contains(t)
}

/// The test that a term passes both tests.
pub open spec fn both(p: spec_fn(Term) -> bool, q: spec_fn(Term) -> bool) -> spec_fn(Term) -> bool {
    |t: Term| p(t) && q(t)
}

/// The test that a term passes one of two tests.
pub open spec fn either(p: spec_fn(Term) -> bool, q: spec_fn(Term) -> bool) -> spec_fn(Term) -> bool {
    |t: Term| p(t) || q(t)
}

/// The test that a term belongs to the selection.
pub open spec fn selected_by(cands: Seq<Term>, sel: u32) -> spec_fn(Term) -> bool {
    |t: Term| in_selection(t, cands, sel)
}

/// `w` gives nothing negative for the terms.
pub open spec fn never_negative(s: Seq<Term>, w: spec_fn(Term) -> int) -> bool {
    forall|j: int| 0 <= j < s.len() ==> w(#[trigger] s[j]) >= 0
}

/// The totals of two sequences that agree on their first `n` terms are the same.
proof fn lemma_total_prefix(
    a: Seq<Term>,
    b: Seq<Term>,
    q: spec_fn(Term) -> bool,
    w: spec_fn(Term) -> int,
    n: int,
)
    requires
        n <= a.len(),
        n <= b.len(),
        forall|j: int| 0 <= j < n ==> a[j] == b[j],
    ensures
        total(a, w, n) == total(b, w, n),
        passing_total(a, q, w, n) == passing_total(b, q, w, n),
    decreases n,
{
    if n > 0 {
        lemma_total_prefix(a, b, q, w, n - 1);
    }
}

/// Two tests that agree on the terms give the same total.
proof fn lemma_total_same(
    s: Seq<Term>,
    p: spec_fn(Term) -> bool,
    q: spec_fn(Term) -> bool,
    w: spec_fn(Term) -> int,
    n: int,
)
    requires
        n <= s.len(),
        forall|j: int| 0 <= j < n ==> p(#[trigger] s[j]) == q(s[j]),
    ensures
        passing_total(s, p, w, n) == passing_total(s, q, w, n),
    decreases n,
{
    if n > 0 {
        lemma_total_same(s, p, q, w, n - 1);
    }
}

/// A test that two tests share out between them has the sum of their totals.
proof fn lemma_total_split(
    s: Seq<Term>,
    q: spec_fn(Term) -> bool,
    q1: spec_fn(Term) -> bool,
    q2: spec_fn(Term) -> bool,
    w: spec_fn(Term) -> int,
    n: int,
)
    requires
        n <= s.len(),
        forall|j: int|
            0 <= j < n ==> q(#[trigger] s[j]) == (q1(s[j]) || q2(s[j])) && !(q1(s[j]) && q2(s[j])),
    ensures
        passing_total(s, q, w, n) == passing_total(s, q1, w, n) + passing_total(s, q2, w, n),
    decreases n,
{
    if n > 0 {
        lemma_total_split(s, q, q1, q2, w, n - 1);
    }
}

/// A test that passes no more terms gives no greater total.
proof fn lemma_total_grows(
    s: Seq<Term>,
    p: spec_fn(Term) -> bool,
    q: spec_fn(Term) -> bool,
    w: spec_fn(Term) -> int,
    n: int,
)
    requires
        n <= s.len(),
        forall|j: int| 0 <= j < n && p(#[trigger] s[j]) ==> q(s[j]),
        never_negative(s, w),
    ensures
        0 <= passing_total(s, p, w, n) <= passing_total(s, q, w, n),
    decreases n,
{
    if n > 0 {
        lemma_total_grows(s, p, q, w, n - 1);
        assert(w(s[n - 1]) >= 0);
    }
}

/// The total of an ascending sequence drawn from another is the total of
/// the terms of the other that belong to it.
proof fn lemma_total_within(a: Seq<Term>, b: Seq<Term>, w: spec_fn(Term) -> int)
    requires
        strictly_increasing(a),
        strictly_increasing(b),
        forall|t: Term| #[trigger] a.contains(t) ==> b.contains(t),
    ensures
        total(a, w, a.len() as int) == passing_total(b, member_of(a), w, b.len() as int),
    decreases b.len(),
{
    let q = member_of(a);
    if b.len() == 0 {
        if a.len() > 0 {
            assert(a.contains(a[0]));
        }
    } else {
        let x = b.last();
        let b1 = b.drop_last();
        let n = b.len() as int;
        lemma_total_prefix(b, b1, q, w, n - 1);
        assert(b[n - 1] == x);
        if a.contains(x) {
            let i = choose|i: int| 0 <= i < a.len() && a[i] == x;
            let y = a.last();
            assert(a[a.len() - 1] == y);
            assert(a.contains(y));
            let j = choose|j: int| 0 <= j < b.len() && b[j] == y;
            assert(y.0 <= x.0) by {
                if j < n - 1 {
                    assert(b[j].0 < b[n - 1].0);
                }
            }
            assert(x.0 <= y.0) by {
                if i < a.len() - 1 {
                    assert(a[i].0 < a[a.len() - 1].0);
                }
            }
            assert(x == y);
            let a1 = a.drop_last();
            assert forall|t: Term| #[trigger] a1.contains(t) implies b1.contains(t) by {
                let k = choose|k: int| 0 <= k < a1.len() && a1[k] == t;
                assert(a[k] == t);
                assert(a[k].0 < a[a.len() - 1].0);
                assert(a.contains(t));
                let l = choose|l: int| 0 <= l < b.len() && b[l] == t;
                assert(b1[l] == t);
            }
            lemma_total_within(a1, b1, w);
            assert forall|l: int| 0 <= l < b1.len() implies member_of(a1)(#[trigger] b1[l]) == q(
                b1[l],
            ) by {
                let t = b1[l];
                assert(b[l].0 < b[n - 1].0);
                if a.contains(t) {
                    let k = choose|k: int| 0 <= k < a.len() && a[k] == t;
                    assert(a1[k] == t);
                }
                if a1.contains(t) {
                    let k = choose|k: int| 0 <= k < a1.len() && a1[k] == t;
                    assert(a[k] == t);
                }
            }
            lemma_total_same(b1, member_of(a1), q, w, n - 1);
            lemma_total_prefix(a, a1, q, w, a.len() - 1);
        } else {
            assert forall|t: Term| #[trigger] a.contains(t) implies b1.contains(t) by {
                assert(b.contains(t));
                let l = choose|l: int| 0 <= l < b.len() && b[l] == t;
                assert(b1[l] == t);
            }
            lemma_total_within(a, b1, w);
        }
    }
}

/// The total over the terms that pass a filter is the total of the terms
/// that pass both tests.
proof fn lemma_total_filtered(
    s: Seq<Term>,
    p: spec_fn(Term) -> bool,
    q: spec_fn(Term) -> bool,
    w: spec_fn(Term) -> int,
    n: int,
)
    requires
        0 <= n <= s.len(),
    ensures
        passing_total(s.take(n).filter(p), q, w, s.take(n).filter(p).len() as int)
            == passing_total(s, both(p, q), w, n),
    decreases n,
{
    if n == 0 {
        lemma_filter_take_ends(s, p);
    } else {
        lemma_total_filtered(s, p, q, w, n - 1);
        lemma_filter_take_step(s, p, n - 1);
        let before = s.take(n - 1).filter(p);
        let after = s.take(n).filter(p);
        if p(s[n - 1]) {
            lemma_total_prefix(after, before, q, w, before.len() as int);
            assert(after[after.len() - 1] == s[n - 1]);
        }
    }
}

/// The literals and the rank of a selection are the totals of the
/// candidates that a test passes, where the test passes the candidates
/// of the selection.
proof fn lemma_total_selected(cands: Seq<Term>, sel: u32, q: spec_fn(Term) -> bool, bits: nat, n: int)
    requires
        n <= cands.len(),
        forall|a: int| 0 <= a < n ==> picked(sel, a) == q(#[trigger] cands[a]),
    ensures
        selection_literals(cands, sel, bits, n) == passing_total(cands, q, literals_over(bits), n),
        selection_rank(cands, sel, n) == passing_total(cands, q, ranks(), n),
    decreases n,
{
    if n > 0 {
        lemma_total_selected(cands, sel, q, bits, n - 1);
    }
}

/// The word whose bit `a` is set, for `a` below `n`, where the test passes `a`.
pub open spec fn word_of(q: spec_fn(int) -> bool, n: nat) -> u32
    decreases n,
{
    if n == 0 {
        0
    } else {
        let w = word_of(q, (n - 1) as nat);
        if q(n - 1) {
            w | (1u32 << ((n - 1) as u32))
        } else {
            w
        }
    }
}

/// Setting bit `p` in a word below `2^p`.
proof fn lemma_set_next_bit(w: u32, p: u32, a: u32)
    by (bit_vector)
    requires
        p < 32,
        a < 32,
        w <= ((1u32 << p) - 1) as u32,
    ensures
        ((w | (1u32 << p)) >> a) & 1 == 1 <==> a == p || (w >> a) & 1 == 1,
        a >= p ==> (w >> a) & 1 != 1,
        w | (1u32 << p) <= (if p == 31 {
            0xffff_ffffu32
        } else {
            ((1u32 << ((p + 1) as u32)) - 1) as u32
        }),
        w <= (if p == 31 {
            0xffff_ffffu32
        } else {
            ((1u32 << ((p + 1) as u32)) - 1) as u32
        }),
{
}

/// The word of a test holds exactly the positions below `n` that pass.
proof fn lemma_word_of(q: spec_fn(int) -> bool, n: nat)
    requires
        n <= 32,
    ensures
        word_of(q, n) <= low_mask(n),
        forall|a: int| picked(word_of(q, n), a) == (0 <= a < n && q(a)),
    decreases n,
{
    if n == 0 {
        assert forall|a: int| !picked(0u32, a) by {
            if 0 <= a < 32 {
                let aa = a as u32;
                lemma_set_next_bit(0, 0, aa);
            }
        }
        lemma_low_mask_step(0);
    } else {
        let p = (n - 1) as nat;
        lemma_word_of(q, p);
        let w = word_of(q, p);
        let pb = p as u32;
        lemma_set_next_bit(w, pb, 0);
        assert forall|a: int| picked(word_of(q, n), a) == (0 <= a < n && q(a)) by {
            assert(picked(w, a) == (0 <= a < p && q(a)));
            if 0 <= a < 32 {
                lemma_set_next_bit(w, pb, a as u32);
            }
        }
    }
}

/// The essential terms belong to every cover drawn from the terms given.
proof fn lemma_essentials_in_every_cover(primes: Seq<Term>, minterms: Seq<u32>, other: Seq<Term>, e: Term)
    requires
        forall|i: int| 0 <= i < primes.len() ==> is_implicant(#[trigger] primes[i], minterms.to_set()),
        forall|t: Term| #[trigger] other.contains(t) ==> primes.contains(t),
        forall|k: int| 0 <= k < minterms.len() ==> covered_by(#[trigger] minterms[k], other),
        primes.contains(e),
        is_essential(e, primes),
    ensures
        other.contains(e),
{
    let m = choose|m: u32| sole_coverer(e, m, primes);
    let i = choose|i: int| 0 <= i < primes.len() && primes[i] == e;
    assert(primes[i].covers(m));
    assert(minterms.to_set().contains(m));
    let k = choose|k: int| 0 <= k < minterms.len() && minterms[k] == m;
    assert(covered_by(minterms[k], other));
    let j = choose|j: int| 0 <= j < other.len() && (#[trigger] other[j]).covers(m);
    assert(other.contains(other[j]));
    let a = choose|a: int| 0 <= a < primes.len() && primes[a] == other[j];
    assert(primes[a].covers(m));
}

/// No essential term covers an assignment that the essential terms leave
/// uncovered.
proof fn lemma_essential_is_no_candidate(primes: Seq<Term>, minterms: Seq<u32>, e: Term)
    requires
        primes.contains(e),
        is_essential(e, primes),
    ensures
        !covers_one_of(e, residual_of(primes, minterms)),
{
    let forced = essentials_of(primes);
    let ms = residual_of(primes, minterms);
    if covers_one_of(e, ms) {
        let r = choose|r: int| 0 <= r < ms.len() && e.covers(#[trigger] ms[r]);
        assert(ms.contains(ms[r]));
        lemma_filter_contains(minterms, uncovered_by(forced), ms[r]);
        lemma_filter_contains(primes, essential_among(primes), e);
        lemma_covered_by_member(ms[r], forced, e);
    }
}

/// The candidates that a cover holds make a selection that covers what
/// the essential terms leave uncovered.
proof fn lemma_cover_gives_selection(primes: Seq<Term>, minterms: Seq<u32>, other: Seq<Term>) -> (word:
    u32)
    requires
        solved_exactly(primes, minterms),
        forall|t: Term| #[trigger] other.contains(t) ==> primes.contains(t),
        forall|k: int| 0 <= k < minterms.len() ==> covered_by(#[trigger] minterms[k], other),
    ensures
        word <= low_mask(candidates_of(primes, minterms).len()),
        selection_covers(candidates_of(primes, minterms), word, residual_of(primes, minterms)),
        forall|a: int|
            0 <= a < candidates_of(primes, minterms).len() ==> picked(word, a) == other.contains(
                #[trigger] candidates_of(primes, minterms)[a],
            ),
{
    let forced = essentials_of(primes);
    let ms = residual_of(primes, minterms);
    let useful = covering_some(ms);
    let cands = candidates_of(primes, minterms);
    let held = |a: int| 0 <= a < cands.len() && other.contains(cands[a]);
    let word = word_of(held, cands.len());
    lemma_word_of(held, cands.len());
    assert forall|r: int| 0 <= r < ms.len() implies picked_covers(cands, word, #[trigger] ms[r]) by {
        let m = ms[r];
        assert(ms.contains(m));
        lemma_filter_contains(minterms, uncovered_by(forced), m);
        let k = choose|k: int| 0 <= k < minterms.len() && minterms[k] == m;
        assert(covered_by(minterms[k], other));
        let j = choose|j: int| 0 <= j < other.len() && (#[trigger] other[j]).covers(m);
        let t = other[j];
        assert(other.contains(t));
        assert(primes.contains(t));
        assert(covers_one_of(t, ms));
        lemma_filter_contains(primes, useful, t);
        let a = choose|a: int| 0 <= a < cands.len() && cands[a] == t;
        assert(picked(word, a) && cands[a].covers(m));
    }
    word
}

/// Where the best selection was looked for among all selections, no
/// cover drawn from the prime implicants is cheaper than the minimal
/// cover: none has fewer literals, and none with as many literals has a
/// lower sum of ranks.
pub proof fn lemma_cover_minimal(
    cover: Seq<Term>,
    other: Seq<Term>,
    bits: nat,
    primes: Seq<Term>,
    minterms: Seq<u32>,
)
    requires
        strictly_increasing(primes),
        forall|i: int|
            0 <= i < primes.len() ==> is_implicant(#[trigger] primes[i], minterms.to_set())
                && primes[i].order() <= bits,
        solved_exactly(primes, minterms),
        is_cover_list(cover, bits, primes, minterms),
        strictly_increasing(other),
        forall|t: Term| #[trigger] other.contains(t) ==> primes.contains(t),
        forall|k: int| 0 <= k < minterms.len() ==> covered_by(#[trigger] minterms[k], other),
    ensures
        literal_total(cover, bits) <= literal_total(other, bits),
        literal_total(cover, bits) == literal_total(other, bits) ==> rank_total(cover)
            <= rank_total(other),
{
    let n = primes.len() as int;
    let forced = essentials_of(primes);
    let ms = residual_of(primes, minterms);
    let useful = covering_some(ms);
    let cands = candidates_of(primes, minterms);
    let ess = essential_among(primes);
    let in_cover = member_of(cover);
    let in_other = member_of(other);
    let lits = literals_over(bits);
    let rks = ranks();
    assert forall|t: Term| #[trigger] cover.contains(t) implies primes.contains(t) by {
        lemma_cover_from_primes(bits, primes, minterms, t);
    }
    lemma_total_within(cover, primes, lits);
    lemma_total_within(other, primes, lits);
    lemma_total_within(cover, primes, rks);
    lemma_total_within(other, primes, rks);
    assert forall|i: int| 0 <= i < n && ess(#[trigger] primes[i]) implies in_other(primes[i]) by {
        assert(primes.contains(primes[i]));
        lemma_essentials_in_every_cover(primes, minterms, other, primes[i]);
    }
    assert forall|i: int| 0 <= i < n implies !(ess(#[trigger] primes[i]) && useful(primes[i])) by {
        assert(primes.contains(primes[i]));
        if ess(primes[i]) {
            lemma_essential_is_no_candidate(primes, minterms, primes[i]);
        }
    }
    assert(never_negative(primes, lits));
    assert(never_negative(primes, rks));
    if exists|s: u32| is_optimal(cands, bits, ms, s) {
        let sel = choose|s: u32| is_optimal(cands, bits, ms, s);
        let chosen = selected_by(cands, sel);
        let picks = both(useful, chosen);
        let others = both(useful, in_other);
        lemma_filter_take_ends(primes, useful);
        lemma_filter_increasing(primes, useful, n);
        // the cover is the essential terms and the selection
        assert forall|i: int| 0 <= i < n implies in_cover(#[trigger] primes[i]) == (ess(primes[i])
            || picks(primes[i])) && !(ess(primes[i]) && picks(primes[i])) by {
            let t = primes[i];
            assert(primes.contains(t));
            lemma_filter_contains(primes, ess, t);
            lemma_filter_contains(primes, useful, t);
            if in_minimal_cover(t, bits, primes, minterms) && !forced.contains(t) {
                let s = choose|s: u32| #[trigger] is_optimal(cands, bits, ms, s) && in_selection(t, cands, s);
                lemma_optimal_unique(cands, bits, ms, s, sel);
                let a = choose|a: int| 0 <= a < cands.len() && picked(sel, a) && #[trigger] cands[a] == t;
                assert(cands.contains(t));
            }
            if chosen(t) {
                assert(is_optimal(cands, bits, ms, sel) && in_selection(t, cands, sel));
            }
        }
        lemma_total_split(primes, in_cover, ess, picks, lits, n);
        lemma_total_split(primes, in_cover, ess, picks, rks, n);
        // the other cover holds the essential terms and some candidates
        let part = either(ess, others);
        assert forall|i: int| 0 <= i < n implies part(#[trigger] primes[i]) == (ess(primes[i])
            || others(primes[i])) && !(ess(primes[i]) && others(primes[i])) by {}
        lemma_total_split(primes, part, ess, others, lits, n);
        lemma_total_split(primes, part, ess, others, rks, n);
        lemma_total_grows(primes, part, in_other, lits, n);
        lemma_total_grows(primes, part, in_other, rks, n);
        // both selections as totals over the candidates
        lemma_total_filtered(primes, useful, chosen, lits, n);
        lemma_total_filtered(primes, useful, chosen, rks, n);
        lemma_total_filtered(primes, useful, in_other, lits, n);
        lemma_total_filtered(primes, useful, in_other, rks, n);
        assert forall|a: int| 0 <= a < cands.len() implies picked(sel, a) == chosen(
            #[trigger] cands[a],
        ) by {
            if chosen(cands[a]) {
                let b = choose|b: int| 0 <= b < cands.len() && picked(sel, b) && #[trigger] cands[b] == cands[a];
                if b < a {
                    assert(cands[b].0 < cands[a].0);
                } else if a < b {
                    assert(cands[a].0 < cands[b].0);
                }
            }
        }
        lemma_total_selected(cands, sel, chosen, bits, cands.len() as int);
        let word = lemma_cover_gives_selection(primes, minterms, other);
        assert forall|a: int| 0 <= a < cands.len() implies picked(word, a) == in_other(
            #[trigger] cands[a],
        ) by {}
        lemma_total_selected(cands, word, in_other, bits, cands.len() as int);
        assert(prefers(cands, bits, sel, word));
    } else {
        // nothing was selected: the cover is the essential terms
        assert forall|i: int| 0 <= i < n && in_cover(#[trigger] primes[i]) implies ess(primes[i]) by {
            let t = primes[i];
            assert(primes.contains(t));
            lemma_filter_contains(primes, ess, t);
        }
        lemma_total_grows(primes, in_cover, ess, lits, n);
        lemma_total_grows(primes, ess, in_other, lits, n);
        lemma_total_same(primes, in_cover, ess, lits, n);
        assert forall|i: int| 0 <= i < n implies in_cover(#[trigger] primes[i]) == ess(primes[i]) by {
            let t = primes[i];
            assert(primes.contains(t));
            lemma_filter_contains(primes, ess, t);
        }
        lemma_total_same(primes, in_cover, ess, rks, n);
        lemma_total_grows(primes, ess, in_other, rks, n);
    }
}

} // verus!
