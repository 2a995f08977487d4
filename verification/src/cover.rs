use crate::greedy::{greedy_picks, greedy_select, lemma_greedy_from_candidates};
use crate::implicant::is_implicant;
use crate::select::{
    exact_select, in_selection, is_optimal, lemma_selected_is_needed, picked, picked_covers,
    prefers, selected_terms, EXACT_LIMIT,
};
use crate::seqs::{
    lemma_concat_contains, lemma_filter_contains, lemma_filter_take_ends, lemma_filter_take_step,
};
use crate::sorted::{sort_dedup, strictly_increasing};
use crate::term::Term;
use vstd::prelude::*;

verus! {

/// Some term of `cover` covers the assignment `m`.
pub open spec fn covered_by(m: u32, cover: Seq<Term>) -> bool {
    exists|j: int| 0 <= j < cover.len() && (#[trigger] cover[j]).covers(m)
}

/// Among `primes`, the assignment `m` is covered by `p` and by no other term.
pub open spec fn sole_coverer(p: Term, m: u32, primes: Seq<Term>) -> bool {
    p.covers(m) && forall|j: int|
        0 <= j < primes.len() && (#[trigger] primes[j]).covers(m) ==> primes[j] == p
}

/// `p` is essential among `primes`: some assignment is covered by it alone.
pub open spec fn is_essential(p: Term, primes: Seq<Term>) -> bool {
    exists|m: u32| sole_coverer(p, m, primes)
}

/// The test that picks the essential terms out of `primes`.
pub open spec fn essential_among(primes: Seq<Term>) -> spec_fn(Term) -> bool {
    |p: Term| is_essential(p, primes)
}

/// The test that picks the assignments that no term of `cover` covers.
pub open spec fn uncovered_by(cover: Seq<Term>) -> spec_fn(u32) -> bool {
    |m: u32| !covered_by(m, cover)
}

/// The term covers one of the assignments `ms`.
pub open spec fn covers_one_of(p: Term, ms: Seq<u32>) -> bool {
    exists|k: int| 0 <= k < ms.len() && p.covers(#[trigger] ms[k])
}

/// The test that picks the terms that cover one of the assignments `ms`.
pub open spec fn covering_some(ms: Seq<u32>) -> spec_fn(Term) -> bool {
    |p: Term| covers_one_of(p, ms)
}

/// Whether a term of `cover` covers the assignment.
pub fn is_covered(m: u32, cover: &Vec<Term>) -> (r: bool)
    ensures
        r == covered_by(m, cover@),
{
    let mut j: usize = 0;
    while j < cover.len()
        invariant
            j <= cover.len(),
            forall|i: int| 0 <= i < j ==> !(#[trigger] cover[i]).covers(m),
        decreases cover.len() - j,
    {
        if cover[j].includes(m) {
            return true;
        }
        j += 1;
    }
    false
}

/// Whether no term of `primes` but `p` covers the assignment.
fn no_other_covers(p: Term, m: u32, primes: &Vec<Term>) -> (r: bool)
    ensures
        r == forall|j: int|
            0 <= j < primes.len() && (#[trigger] primes[j]).covers(m) ==> primes[j] == p,
{
    let mut j: usize = 0;
    while j < primes.len()
        invariant
            j <= primes.len(),
            forall|i: int| 0 <= i < j && (#[trigger] primes[i]).covers(m) ==> primes[i] == p,
        decreases primes.len() - j,
    {
        if primes[j].includes(m) && primes[j] != p {
            return false;
        }
        j += 1;
    }
    true
}

/// Whether `p` is essential among `primes`.
pub fn check_essential(p: Term, primes: &Vec<Term>) -> (r: bool)
    requires
        p.wf(),
    ensures
        r == is_essential(p, primes@),
{
    let ms = p.permutations();
    let mut k: usize = 0;
    while k < ms.len()
        invariant
            k <= ms.len(),
            forall|m: u32| #[trigger] ms@.contains(m) <==> p.covers(m),
            forall|i: int| 0 <= i < k ==> !sole_coverer(p, #[trigger] ms[i], primes@),
        decreases ms.len() - k,
    {
        assert(ms@.contains(ms[k as int]));
        if no_other_covers(p, ms[k], primes) {
            assert(sole_coverer(p, ms[k as int], primes@));
            return true;
        }
        k += 1;
    }
    proof {
        if is_essential(p, primes@) {
            let m = choose|m: u32| sole_coverer(p, m, primes@);
            assert(ms@.contains(m));
            let i = choose|i: int| 0 <= i < ms.len() && ms[i] == m;
            assert(!sole_coverer(p, ms[i], primes@));
        }
    }
    false
}

/// The essential terms among `primes`, in the order in which they stand there.
pub fn essential_of(primes: &Vec<Term>) -> (r: Vec<Term>)
    requires
        forall|i: int| 0 <= i < primes.len() ==> (#[trigger] primes[i]).wf(),
    ensures
        r@ == primes@.filter(essential_among(primes@)),
{
    let ghost pred = essential_among(primes@);
    let mut r: Vec<Term> = Vec::new();
    let mut i: usize = 0;
    proof {
        lemma_filter_take_ends(primes@, pred);
    }
    while i < primes.len()
        invariant
            i <= primes.len(),
            pred == essential_among(primes@),
            forall|j: int| 0 <= j < primes.len() ==> (#[trigger] primes[j]).wf(),
            r@ == primes@.take(i as int).filter(pred),
        decreases primes.len() - i,
    {
        proof {
            lemma_filter_take_step(primes@, pred, i as int);
        }
        if check_essential(primes[i], primes) {
            r.push(primes[i]);
        }
        i += 1;
    }
    r
}

/// The essential prime implicants: those that alone cover some assignment.
#[allow(unused_variables)]
pub fn essential_implicants(bits: usize, prime_implicants: Vec<Term>) -> (r: Vec<Term>)
    requires
        forall|i: int| 0 <= i < prime_implicants.len() ==> (#[trigger] prime_implicants[i]).wf(),
    ensures
        r@ == prime_implicants@.filter(essential_among(prime_implicants@)),
{
    essential_of(&prime_implicants)
}

/// The assignments among `minterms` that no term of `cover` covers.
pub fn residual_minterms(minterms: &Vec<u32>, cover: &Vec<Term>) -> (r: Vec<u32>)
    ensures
        r@ == minterms@.filter(uncovered_by(cover@)),
{
    let ghost pred = uncovered_by(cover@);
    let mut r: Vec<u32> = Vec::new();
    let mut k: usize = 0;
    proof {
        lemma_filter_take_ends(minterms@, pred);
    }
    while k < minterms.len()
        invariant
            k <= minterms.len(),
            pred == uncovered_by(cover@),
            r@ == minterms@.take(k as int).filter(pred),
        decreases minterms.len() - k,
    {
        proof {
            lemma_filter_take_step(minterms@, pred, k as int);
        }
        if !is_covered(minterms[k], cover) {
            r.push(minterms[k]);
        }
        k += 1;
    }
    r
}

/// Whether the term covers one of the assignments.
pub fn covers_any(p: Term, ms: &Vec<u32>) -> (r: bool)
    ensures
        r == covers_one_of(p, ms@),
{
    let mut k: usize = 0;
    while k < ms.len()
        invariant
            k <= ms.len(),
            forall|i: int| 0 <= i < k ==> !p.covers(#[trigger] ms[i]),
        decreases ms.len() - k,
    {
        if p.includes(ms[k]) {
            return true;
        }
        k += 1;
    }
    false
}

/// The terms of `primes` that cover one of the assignments `ms`.
pub fn useful_candidates(primes: &Vec<Term>, ms: &Vec<u32>) -> (r: Vec<Term>)
    ensures
        r@ == primes@.filter(covering_some(ms@)),
{
    let ghost pred = covering_some(ms@);
    let mut r: Vec<Term> = Vec::new();
    let mut i: usize = 0;
    proof {
        lemma_filter_take_ends(primes@, pred);
    }
    while i < primes.len()
        invariant
            i <= primes.len(),
            pred == covering_some(ms@),
            r@ == primes@.take(i as int).filter(pred),
        decreases primes.len() - i,
    {
        proof {
            lemma_filter_take_step(primes@, pred, i as int);
        }
        if covers_any(primes[i], ms) {
            r.push(primes[i]);
        }
        i += 1;
    }
    r
}

/// The essential terms among `primes`.
pub open spec fn essentials_of(primes: Seq<Term>) -> Seq<Term> {
    primes.filter(essential_among(primes))
}

/// The assignments that the essential terms leave uncovered.
pub open spec fn residual_of(primes: Seq<Term>, minterms: Seq<u32>) -> Seq<u32> {
    minterms.filter(uncovered_by(essentials_of(primes)))
}

/// The terms that cover one of the assignments left uncovered.
pub open spec fn candidates_of(primes: Seq<Term>, minterms: Seq<u32>) -> Seq<Term> {
    primes.filter(covering_some(residual_of(primes, minterms)))
}

/// The cheapest selection is looked for among all selections: the
/// candidates are few enough.
pub open spec fn solved_exactly(primes: Seq<Term>, minterms: Seq<u32>) -> bool {
    candidates_of(primes, minterms).len() <= EXACT_LIMIT
}

/// `t` belongs to the minimal cover: it is essential, or it belongs to the
/// selection that covers what the essential terms leave uncovered. That
/// selection is the best one where the candidates are few enough, and the
/// greedy one otherwise.
pub open spec fn in_minimal_cover(t: Term, bits: nat, primes: Seq<Term>, minterms: Seq<u32>) -> bool {
    let cands = candidates_of(primes, minterms);
    let ms = residual_of(primes, minterms);
    ||| essentials_of(primes).contains(t)
    ||| (cands.len() <= EXACT_LIMIT && exists|sel: u32| #[trigger]
        is_optimal(cands, bits, ms, sel) && in_selection(t, cands, sel))
    ||| (cands.len() > EXACT_LIMIT && greedy_picks(cands, ms).contains(t))
}

/// There is one best selection at most.
pub proof fn lemma_optimal_unique(cands: Seq<Term>, bits: nat, ms: Seq<u32>, a: u32, b: u32)
    requires
        is_optimal(cands, bits, ms, a),
        is_optimal(cands, bits, ms, b),
    ensures
        a == b,
{
    assert(prefers(cands, bits, a, b));
    assert(prefers(cands, bits, b, a));
}

/// A term of the sequence that covers the assignment shows that the
/// sequence covers it.
pub proof fn lemma_covered_by_member(m: u32, cover: Seq<Term>, t: Term)
    requires
        cover.contains(t),
        t.covers(m),
    ensures
        covered_by(m, cover),
{
    let j = choose|j: int| 0 <= j < cover.len() && cover[j] == t;
    assert(cover[j].covers(m));
}

/// A cover of the given assignments, drawn from the prime implicants and
/// in ascending order: the essential ones, and the best selection of the
/// others that covers what is left. Among more than sixteen candidates
/// the selection is the greedy one, which may not be the cheapest.
pub fn minimal_cover(bits: usize, prime_implicants: &Vec<Term>, minterms: &Vec<u32>) -> (cover: Vec<
    Term,
>)
    requires
        bits <= 32,
        forall|i: int|
            0 <= i < prime_implicants.len() ==> (#[trigger] prime_implicants[i]).wf()
                && prime_implicants[i].order() <= bits,
        forall|k: int|
            0 <= k < minterms.len() ==> covered_by(#[trigger] minterms[k], prime_implicants@),
    ensures
        strictly_increasing(cover@),
        forall|t: Term|
            #[trigger] cover@.contains(t) <==> in_minimal_cover(
                t,
                bits as nat,
                prime_implicants@,
                minterms@,
            ),
        forall|t: Term| #[trigger] cover@.contains(t) ==> prime_implicants@.contains(t),
        forall|k: int| 0 <= k < minterms.len() ==> covered_by(#[trigger] minterms[k], cover@),
{
    let ghost primes = prime_implicants@;
    let essentials = essential_of(prime_implicants);
    let residual = residual_minterms(minterms, &essentials);
    let cands = useful_candidates(prime_implicants, &residual);
    proof {
        assert forall|i: int| 0 <= i < cands.len() implies (#[trigger] cands[i]).order() <= bits by {
            assert(cands@.contains(cands[i]));
            lemma_filter_contains(primes, covering_some(residual@), cands[i]);
            let a = choose|a: int| 0 <= a < primes.len() && primes[a] == cands[i];
        }
        assert forall|k: int| 0 <= k < residual.len() implies covered_by(
            #[trigger] residual[k],
            cands@,
        ) by {
            let m = residual[k];
            assert(residual@.contains(m));
            lemma_filter_contains(minterms@, uncovered_by(essentials@), m);
            let a = choose|a: int| 0 <= a < minterms.len() && minterms[a] == m;
            assert(covered_by(minterms[a], primes));
            let j = choose|j: int| 0 <= j < primes.len() && (#[trigger] primes[j]).covers(m);
            assert(covers_one_of(primes[j], residual@));
            assert(primes.contains(primes[j]));
            lemma_filter_contains(primes, covering_some(residual@), primes[j]);
            lemma_covered_by_member(m, cands@, primes[j]);
        }
    }
    let exact = cands.len() <= EXACT_LIMIT;
    let mut chosen = if exact {
        let sel = exact_select(bits, &cands, &residual);
        let picks = selected_terms(&cands, sel);
        proof {
            assert forall|t: Term| #[trigger] picks@.contains(t) <==> (exists|s: u32| #[trigger]
                is_optimal(cands@, bits as nat, residual@, s) && in_selection(t, cands@, s)) by {
                if exists|s: u32| #[trigger]
                    is_optimal(cands@, bits as nat, residual@, s) && in_selection(t, cands@, s) {
                    let s = choose|s: u32| #[trigger]
                        is_optimal(cands@, bits as nat, residual@, s) && in_selection(t, cands@, s);
                    lemma_optimal_unique(cands@, bits as nat, residual@, s, sel);
                }
            }
            assert forall|k: int| 0 <= k < residual.len() implies covered_by(
                #[trigger] residual[k],
                picks@,
            ) by {
                assert(picked_covers(cands@, sel, residual[k]));
                let i = choose|i: int|
                    0 <= i < cands.len() && picked(sel, i) && (#[trigger] cands[i]).covers(
                        residual[k],
                    );
                assert(in_selection(cands[i], cands@, sel));
                lemma_covered_by_member(residual[k], picks@, cands[i]);
            }
            assert forall|t: Term| #[trigger] picks@.contains(t) implies cands@.contains(t) by {
                let i = choose|i: int| 0 <= i < cands.len() && picked(sel, i) && #[trigger] cands[i] == t;
            }
        }
        picks
    } else {
        greedy_select(&cands, residual)
    };
    let ghost picks = chosen@;
    let ghost residual_seq = residual_of(primes, minterms@);
    let mut all = essentials;
    let ghost forced = all@;
    all.append(&mut chosen);
    let cover = sort_dedup(&all);
    proof {
        assert forall|t: Term| #[trigger] cover@.contains(t) <==> in_minimal_cover(
            t,
            bits as nat,
            primes,
            minterms@,
        ) by {
            lemma_concat_contains(forced, picks, t);
        }
        assert forall|t: Term| #[trigger] cover@.contains(t) implies primes.contains(t) by {
            lemma_concat_contains(forced, picks, t);
            if forced.contains(t) {
                lemma_filter_contains(primes, essential_among(primes), t);
            } else {
                assert(cands@.contains(t));
                lemma_filter_contains(primes, covering_some(residual_seq), t);
            }
        }
        assert forall|k: int| 0 <= k < minterms.len() implies covered_by(
            #[trigger] minterms[k],
            cover@,
        ) by {
            let m = minterms[k];
            assert(minterms@.contains(m));
            lemma_filter_contains(minterms@, uncovered_by(forced), m);
            if covered_by(m, forced) {
                let j = choose|j: int| 0 <= j < forced.len() && (#[trigger] forced[j]).covers(m);
                assert(forced.contains(forced[j]));
                lemma_concat_contains(forced, picks, forced[j]);
                lemma_covered_by_member(m, cover@, forced[j]);
            } else {
                assert(residual_seq.contains(m));
                let a = choose|a: int| 0 <= a < residual_seq.len() && residual_seq[a] == m;
                assert(covered_by(residual_seq[a], picks));
                let j = choose|j: int| 0 <= j < picks.len() && (#[trigger] picks[j]).covers(m);
                assert(picks.contains(picks[j]));
                lemma_concat_contains(forced, picks, picks[j]);
                lemma_covered_by_member(m, cover@, picks[j]);
            }
        }
    }
    cover
}

/// The minimal cover is drawn from the terms given.
pub proof fn lemma_cover_from_primes(bits: nat, primes: Seq<Term>, minterms: Seq<u32>, x: Term)
    requires
        in_minimal_cover(x, bits, primes, minterms),
    ensures
        primes.contains(x),
{
    let forced = essentials_of(primes);
    let ms = residual_of(primes, minterms);
    let cands = candidates_of(primes, minterms);
    lemma_filter_contains(primes, essential_among(primes), x);
    lemma_filter_contains(primes, covering_some(ms), x);
    if !forced.contains(x) {
        if cands.len() <= EXACT_LIMIT {
            let s = choose|s: u32| #[trigger] is_optimal(cands, bits, ms, s) && in_selection(x, cands, s);
            let a = choose|a: int| 0 <= a < cands.len() && picked(s, a) && #[trigger] cands[a] == x;
            assert(cands.contains(x));
        } else {
            lemma_greedy_from_candidates(cands, ms, x);
        }
    }
}

/// An essential term is the only term given that covers some assignment
/// on which the function is true.
proof fn lemma_essential_is_needed(primes: Seq<Term>, minterms: Seq<u32>, t: Term) -> (k: int)
    requires
        forall|i: int| 0 <= i < primes.len() ==> is_implicant(#[trigger] primes[i], minterms.to_set()),
        essentials_of(primes).contains(t),
    ensures
        0 <= k < minterms.len(),
        sole_coverer(t, minterms[k], primes),
{
    lemma_filter_contains(primes, essential_among(primes), t);
    let m = choose|m: u32| sole_coverer(t, m, primes);
    let i = choose|i: int| 0 <= i < primes.len() && primes[i] == t;
    assert(primes[i].covers(m));
    assert(minterms.to_set().contains(m));
    choose|k: int| 0 <= k < minterms.len() && minterms[k] == m
}

/// No term can be taken out of the minimal cover where the best selection
/// was found among all selections: each term of the cover is the only one
/// in it that covers some assignment on which the function is true.
pub proof fn lemma_cover_irredundant(
    cover: Seq<Term>,
    bits: nat,
    primes: Seq<Term>,
    minterms: Seq<u32>,
    t: Term,
)
    requires
        forall|i: int|
            0 <= i < primes.len() ==> is_implicant(#[trigger] primes[i], minterms.to_set())
                && primes[i].order() <= bits,
        solved_exactly(primes, minterms),
        forall|x: Term| #[trigger] cover.contains(x) <==> in_minimal_cover(x, bits, primes, minterms),
        cover.contains(t),
    ensures
        exists|k: int| 0 <= k < minterms.len() && sole_coverer(t, #[trigger] minterms[k], cover),
{
    let forced = essentials_of(primes);
    let ms = residual_of(primes, minterms);
    let cands = candidates_of(primes, minterms);
    if forced.contains(t) {
        let k = lemma_essential_is_needed(primes, minterms, t);
        let m = minterms[k];
        assert forall|j: int| 0 <= j < cover.len() && (#[trigger] cover[j]).covers(m) implies cover[j]
            == t by {
            assert(cover.contains(cover[j]));
            lemma_cover_from_primes(bits, primes, minterms, cover[j]);
            let a = choose|a: int| 0 <= a < primes.len() && primes[a] == cover[j];
            assert(primes[a].covers(m));
        }
        assert(sole_coverer(t, minterms[k], cover));
    } else {
        let sel = choose|s: u32| #[trigger] is_optimal(cands, bits, ms, s) && in_selection(t, cands, s);
        let i = choose|i: int| 0 <= i < cands.len() && picked(sel, i) && #[trigger] cands[i] == t;
        assert forall|j: int| 0 <= j < cands.len() implies (#[trigger] cands[j]).order() <= bits by {
            assert(cands.contains(cands[j]));
            lemma_filter_contains(primes, covering_some(ms), cands[j]);
            let a = choose|a: int| 0 <= a < primes.len() && primes[a] == cands[j];
        }
        let r = lemma_selected_is_needed(cands, bits, ms, sel, i);
        let m = ms[r];
        assert(ms.contains(m));
        lemma_filter_contains(minterms, uncovered_by(forced), m);
        let k = choose|k: int| 0 <= k < minterms.len() && minterms[k] == m;
        assert forall|j: int| 0 <= j < cover.len() && (#[trigger] cover[j]).covers(m) implies cover[j]
            == t by {
            let x = cover[j];
            assert(cover.contains(x));
            if forced.contains(x) {
                lemma_covered_by_member(m, forced, x);
            } else {
                let s = choose|s: u32| #[trigger]
                    is_optimal(cands, bits, ms, s) && in_selection(x, cands, s);
                lemma_optimal_unique(cands, bits, ms, s, sel);
                let a = choose|a: int| 0 <= a < cands.len() && picked(sel, a) && #[trigger] cands[a] == x;
            }
        }
        assert(sole_coverer(t, minterms[k], cover));
    }
}

} // verus!
