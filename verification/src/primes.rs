use crate::bits::{lemma_popcount_zero, low_mask};
use crate::combine::{combine_round, has_partner, is_join_of, joins_with};
use crate::implicant::{
    is_implicant, is_prime_implicant, lemma_implicant_fits, lemma_join_implicant,
    lemma_level_down, lemma_no_partner_is_prime, lemma_partner_not_prime,
    lemma_primes_do_not_join, lemma_split, within,
};
use crate::sorted::{sort_dedup, strictly_increasing};
use crate::term::{lemma_minterm, lemma_term_ext, lemma_unmasked, lemma_word_is_minterm, Term};
use vstd::arithmetic::power2::pow2;
use vstd::prelude::*;

verus! {

/// The assignments that the fully specified terms stand for.
pub open spec fn minterm_set(terms: Seq<Term>) -> Set<u32> {
    Set::new(|m: u32| terms.contains(Term(m as u64)))
}

/// `terms` holds exactly the implicants with `r` don't-cares.
pub open spec fn is_level(terms: Seq<Term>, on: Set<u32>, r: nat) -> bool {
    forall|t: Term| #[trigger] terms.contains(t) <==> is_implicant(t, on) && t.order() == r
}

/// `found` holds exactly the prime implicants with fewer than `r` don't-cares.
pub open spec fn primes_below(found: Seq<Term>, on: Set<u32>, r: nat) -> bool {
    forall|t: Term| #[trigger] found.contains(t) <==> is_prime_implicant(t, on) && t.order() < r
}

/// The fully specified terms are the implicants without don't-cares.
proof fn lemma_first_level(terms: Seq<Term>, bits: nat)
    requires
        bits <= 32,
        forall|i: int| 0 <= i < terms.len() ==> (#[trigger] terms[i]).0 < pow2(bits),
    ensures
        is_level(terms, minterm_set(terms), 0),
        within(minterm_set(terms), bits),
{
    let on = minterm_set(terms);
    assert forall|t: Term| #[trigger] terms.contains(t) <==> is_implicant(t, on) && t.order()
        == 0 by {
        let v = t.value();
        lemma_popcount_zero(t.mask());
        lemma_minterm(v);
        if terms.contains(t) {
            let i = choose|i: int| 0 <= i < terms.len() && terms[i] == t;
            lemma_word_is_minterm(terms[i], bits);
            lemma_unmasked(t);
            assert(on.contains(v));
        }
        if is_implicant(t, on) && t.order() == 0 {
            lemma_unmasked(t);
            assert(t.covers(v));
            assert(on.contains(v));
            lemma_term_ext(Term(v as u64), t);
        }
    }
    assert forall|m: u32| #[trigger] on.contains(m) implies m <= low_mask(bits) by {
        let t = Term(m as u64);
        let i = choose|i: int| 0 <= i < terms.len() && terms[i] == t;
        lemma_word_is_minterm(terms[i], bits);
        lemma_minterm(m);
    }
}

/// The joins of the implicants with `r` don't-cares are the implicants
/// with `r + 1` don't-cares.
proof fn lemma_next_level(terms: Seq<Term>, next: Seq<Term>, on: Set<u32>, r: nat)
    requires
        is_level(terms, on, r),
        forall|t: Term| #[trigger] next.contains(t) <==> is_join_of(t, terms, terms),
    ensures
        is_level(next, on, r + 1),
{
    assert forall|t: Term| #[trigger] next.contains(t) <==> is_implicant(t, on) && t.order() == r
        + 1 by {
        if next.contains(t) {
            let i = choose|i: int|
                0 <= i < terms.len() && joins_with(t, #[trigger] terms[i], terms, terms.len() as int);
            let j = choose|j: int|
                0 <= j < terms.len() && terms[i].joinable(#[trigger] terms[j]) && t
                    == terms[i].join(terms[j]);
            assert(terms.contains(terms[i]));
            assert(terms.contains(terms[j]));
            lemma_join_implicant(terms[i], terms[j], on);
        }
        if is_implicant(t, on) && t.order() == r + 1 {
            lemma_popcount_zero(t.mask());
            let p = lemma_split(t, on);
            assert(terms.contains(p.0));
            assert(terms.contains(p.1));
            let i = choose|i: int| 0 <= i < terms.len() && terms[i] == p.0;
            let j = choose|j: int| 0 <= j < terms.len() && terms[j] == p.1;
            assert(terms[i].joinable(terms[j]) && t == terms[i].join(terms[j]));
            assert(joins_with(t, terms[i], terms, terms.len() as int));
        }
    }
}

/// Among the implicants with `r` don't-cares, those that join with none
/// are the prime implicants.
proof fn lemma_survivors_prime(
    terms: Seq<Term>,
    found: Seq<Term>,
    survivors: Seq<Term>,
    on: Set<u32>,
    r: nat,
)
    requires
        is_level(terms, on, r),
        primes_below(found, on, r),
        forall|t: Term|
            #[trigger] survivors.contains(t) <==> terms.contains(t) && !has_partner(t, terms),
    ensures
        primes_below(found + survivors, on, r + 1),
{
    let all = found + survivors;
    assert forall|t: Term| #[trigger] all.contains(t) <==> is_prime_implicant(t, on) && t.order()
        < r + 1 by {
        if all.contains(t) {
            let i = choose|i: int| 0 <= i < all.len() && all[i] == t;
            if i < found.len() {
                assert(found[i] == t);
                assert(found.contains(t));
            } else {
                assert(survivors[i - found.len()] == t);
                assert(survivors.contains(t));
            }
        }
        if found.contains(t) {
            let i = choose|i: int| 0 <= i < found.len() && found[i] == t;
            assert(all[i] == t);
        }
        if survivors.contains(t) {
            let i = choose|i: int| 0 <= i < survivors.len() && survivors[i] == t;
            assert(all[found.len() + i] == t);
            assert forall|b: Term| is_implicant(b, on) implies !#[trigger] t.joinable(b) by {
                if t.joinable(b) {
                    assert(terms.contains(b));
                    let j = choose|j: int| 0 <= j < terms.len() && terms[j] == b;
                    assert(t.joinable(terms[j]));
                }
            }
            lemma_no_partner_is_prime(t, on);
        }
        if is_prime_implicant(t, on) && t.order() == r {
            assert(terms.contains(t));
            if has_partner(t, terms) {
                let j = choose|j: int| 0 <= j < terms.len() && t.joinable(#[trigger] terms[j]);
                assert(terms.contains(terms[j]));
                lemma_partner_not_prime(t, terms[j], on);
            }
        }
    }
}

/// The prime implicants of the function that is true exactly on the given
/// fully specified terms, in ascending order of their packed words.
pub fn prime_implicants(bits: usize, terms: Vec<Term>) -> (result: Vec<Term>)
    requires
        bits <= 32,
        forall|i: int| 0 <= i < terms.len() ==> (#[trigger] terms[i]).0 < pow2(bits as nat),
    ensures
        strictly_increasing(result@),
        forall|t: Term|
            #[trigger] result@.contains(t) <==> is_prime_implicant(t, minterm_set(terms@)),
        forall|i: int, j: int|
            0 <= i < result.len() && 0 <= j < result.len() ==> !(#[trigger] result[i]).joinable(
                #[trigger] result[j],
            ),
{
    let ghost on = minterm_set(terms@);
    let mut terms = terms;
    let mut found: Vec<Term> = Vec::new();
    let mut round: usize = 0;
    proof {
        lemma_first_level(terms@, bits as nat);
    }
    loop
        invariant_except_break
            is_level(terms@, on, round as nat),
            primes_below(found@, on, round as nat),
        invariant
            bits <= 32,
            round <= bits,
            within(on, bits as nat),
        ensures
            forall|t: Term| #[trigger] found@.contains(t) <==> is_prime_implicant(t, on),
        decreases bits - round,
    {
        proof {
            assert forall|i: int| 0 <= i < terms.len() implies (#[trigger] terms[i]).wf()
                && terms[i].weight() <= bits by {
                assert(terms@.contains(terms[i]));
                lemma_implicant_fits(terms[i], on, bits as nat);
            }
        }
        let ghost found_before = found@;
        let (next, mut survivors) = combine_round(bits, &terms);
        let ghost lone = survivors@;
        found.append(&mut survivors);
        proof {
            lemma_survivors_prime(terms@, found_before, lone, on, round as nat);
            lemma_next_level(terms@, next@, on, round as nat);
        }
        if next.len() == 0 {
            proof {
                assert forall|t: Term| #[trigger] found@.contains(t) <==> is_prime_implicant(
                    t,
                    on,
                ) by {
                    if is_prime_implicant(t, on) && t.order() >= round + 1 {
                        let u = lemma_level_down(t, on, (round + 1) as nat);
                        assert(next@.contains(u));
                    }
                }
            }
            break ;
        }
        proof {
            assert(next@.contains(next@[0]));
            lemma_implicant_fits(next@[0], on, bits as nat);
        }
        terms = next;
        round += 1;
    }
    let result = sort_dedup(&found);
    proof {
        assert forall|i: int, j: int|
            0 <= i < result.len() && 0 <= j < result.len() implies !(#[trigger] result[i]).joinable(
            #[trigger] result[j],
        ) by {
            assert(result@.contains(result[i]));
            assert(result@.contains(result[j]));
            lemma_primes_do_not_join(result[i], result[j], on);
        }
    }
    result
}

} // verus!
