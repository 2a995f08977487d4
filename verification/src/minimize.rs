use crate::bits::{lemma_low_mask_pow2, low_mask, low_word};
use crate::cover::{covered_by, in_minimal_cover, lemma_covered_by_member, minimal_cover};
use crate::expr::{build_expression, disjunction, lemma_disjunction_eval, Formula, Node};
use crate::implicant::{
    is_implicant, is_prime_implicant, lemma_covers_some, lemma_generalizes_covers,
    lemma_implicant_fits, lemma_prime_above, within,
};
use crate::primes::{minterm_set, prime_implicants};
use crate::sorted::{lemma_increasing_unique, strictly_increasing};
use crate::term::{lemma_minterm, lemma_unmasked, Term};
use vstd::arithmetic::power2::pow2;
use vstd::prelude::*;

verus! {

/// Why a function was not minimized.
#[derive(Clone, Copy, PartialEq, Eq, Debug, Structural)]
pub enum MinimizeError {
    /// More than 32 variables were asked for.
    TooManyVariables,
    /// A term does not fit into the number of variables given.
    InvalidTerms,
}

impl MinimizeError {
    /// The error in words.
    pub fn message(&self) -> (r: &'static str)
        ensures
            r@ == match self {
                MinimizeError::TooManyVariables => "too many variables"@,
                MinimizeError::InvalidTerms => "invalid terms"@,
            },
    {
        match self {
            MinimizeError::TooManyVariables => "too many variables",
            MinimizeError::InvalidTerms => "invalid terms",
        }
    }
}

/// `primes` lists the prime implicants of the function that is true
/// exactly on `on`, in ascending order.
pub open spec fn is_prime_list(primes: Seq<Term>, on: Set<u32>) -> bool {
    strictly_increasing(primes) && forall|t: Term|
        #[trigger] primes.contains(t) <==> is_prime_implicant(t, on)
}

/// `cover` lists the minimal cover of `minterms` out of `primes`, in
/// ascending order.
pub open spec fn is_cover_list(cover: Seq<Term>, bits: nat, primes: Seq<Term>, minterms: Seq<u32>) -> bool {
    strictly_increasing(cover) && forall|t: Term|
        #[trigger] cover.contains(t) <==> in_minimal_cover(t, bits, primes, minterms)
}

/// The prime implicants of the function that is true exactly on `on`.
pub open spec fn prime_list(on: Set<u32>) -> Seq<Term> {
    choose|primes: Seq<Term>| is_prime_list(primes, on)
}

/// The minimal cover of `minterms` out of `primes`.
pub open spec fn cover_list(bits: nat, primes: Seq<Term>, minterms: Seq<u32>) -> Seq<Term> {
    choose|cover: Seq<Term>| is_cover_list(cover, bits, primes, minterms)
}

/// The minimized formula of the function over `bits` variables that is
/// true exactly on `terms`.
pub open spec fn minimized(bits: nat, terms: Seq<u32>) -> Formula {
    if terms.len() == 0 {
        Formula::False
    } else {
        disjunction(cover_list(bits, prime_list(terms.to_set()), terms), bits)
    }
}

/// What is minimized is fixed by the function: whatever lists its prime
/// implicants in ascending order, and whatever lists the minimal cover
/// out of them in ascending order, the formula of that cover is the
/// minimized formula. So minimizing the same function again gives the
/// same tree.
pub proof fn lemma_minimized_unique(bits: nat, terms: Seq<u32>, primes: Seq<Term>, cover: Seq<Term>)
    requires
        terms.len() > 0,
        is_prime_list(primes, terms.to_set()),
        is_cover_list(cover, bits, primes, terms),
    ensures
        disjunction(cover, bits) == minimized(bits, terms),
{
    lemma_increasing_unique(primes, prime_list(terms.to_set()));
    lemma_increasing_unique(cover, cover_list(bits, primes, terms));
}

/// Minimizes the function over `bits` variables that is true exactly on
/// the assignments `terms`. The result is true on them and false on all
/// other assignments of the variables, and it is fixed by the arguments.
/// More than 32 variables are refused, and so is a term that does not fit
/// into the variables; no term at all gives the empty node.
pub fn minimize(bits: usize, terms: Vec<u32>) -> (r: Result<Node, MinimizeError>)
    ensures
        r == Err::<Node, MinimizeError>(MinimizeError::TooManyVariables) <==> bits > 32,
        r == Err::<Node, MinimizeError>(MinimizeError::InvalidTerms) <==> bits <= 32 && exists|
            i: int,
        |
            0 <= i < terms.len() && #[trigger] terms[i] >= pow2(bits as nat),
        r matches Ok(node) ==> {
            &&& node@ == minimized(bits as nat, terms@)
            &&& forall|m: u32| m < pow2(bits as nat) ==> (node@.eval(m) <==> terms@.contains(m))
            &&& terms.len() == 0 ==> node@ == Formula::False
        },
{
    if bits > 32 {
        return Err(MinimizeError::TooManyVariables);
    }
    if terms.len() == 0 {
        return Ok(Node::Empty);
    }
    let top = low_word(bits);
    proof {
        lemma_low_mask_pow2(bits as nat);
    }
    let mut packed: Vec<Term> = Vec::new();
    let mut i: usize = 0;
    while i < terms.len()
        invariant
            i <= terms.len(),
            packed.len() == i,
            bits <= 32,
            top + 1 == pow2(bits as nat),
            forall|j: int|
                0 <= j < i ==> #[trigger] packed[j] == Term(terms[j] as u64) && terms[j] <= top,
        decreases terms.len() - i,
    {
        let t = terms[i];
        if t > top {
            return Err(MinimizeError::InvalidTerms);
        }
        packed.push(Term(t as u64));
        i += 1;
    }
    let ghost on = terms@.to_set();
    proof {
        assert forall|j: int| 0 <= j < terms.len() implies #[trigger] terms[j] < pow2(
            bits as nat,
        ) by {
            assert(packed[j] == Term(terms[j] as u64));
        }
        assert(minterm_set(packed@) =~= on) by {
            assert forall|m: u32| minterm_set(packed@).contains(m) <==> on.contains(m) by {
                if minterm_set(packed@).contains(m) {
                    let j = choose|j: int| 0 <= j < packed.len() && packed[j] == Term(m as u64);
                    assert(terms@[j] == m);
                }
                if on.contains(m) {
                    let j = choose|j: int| 0 <= j < terms.len() && terms@[j] == m;
                    assert(packed[j] == Term(m as u64));
                }
            }
        }
        assert forall|m: u32| #[trigger] on.contains(m) implies m <= low_mask(bits as nat) by {
            let j = choose|j: int| 0 <= j < terms.len() && terms@[j] == m;
            assert(packed[j] == Term(terms[j] as u64));
        }
    }
    let primes = prime_implicants(bits, packed);
    proof {
        lemma_primes_cover(primes@, on, terms@, bits as nat);
    }
    let cover = minimal_cover(bits, &primes, &terms);
    let node = build_expression(bits, &cover);
    proof {
        lemma_minimized_unique(bits as nat, terms@, primes@, cover@);
        assert forall|m: u32| m < pow2(bits as nat) implies (node@.eval(m) <==> terms@.contains(
            m,
        )) by {
            lemma_cover_eval(cover@, primes@, on, terms@, bits as nat, m);
        }
    }
    Ok(node)
}

/// The prime implicants of a function over `bits` variables fit into the
/// variables, and together they cover every assignment on which the
/// function is true.
pub proof fn lemma_primes_cover(primes: Seq<Term>, on: Set<u32>, terms: Seq<u32>, bits: nat)
    requires
        bits <= 32,
        on == terms.to_set(),
        within(on, bits),
        forall|t: Term| #[trigger] primes.contains(t) <==> is_prime_implicant(t, on),
    ensures
        forall|i: int|
            0 <= i < primes.len() ==> (#[trigger] primes[i]).wf() && primes[i].order() <= bits
                && primes[i].value() | primes[i].mask() <= low_mask(bits),
        forall|k: int| 0 <= k < terms.len() ==> covered_by(#[trigger] terms[k], primes),
{
    assert forall|i: int| 0 <= i < primes.len() implies (#[trigger] primes[i]).wf()
        && primes[i].order() <= bits && primes[i].value() | primes[i].mask() <= low_mask(bits) by {
        let p = primes[i];
        assert(primes.contains(p));
        lemma_implicant_fits(p, on, bits);
        lemma_covers_some(p);
        assert(on.contains(p.value() | p.mask()));
    }
    assert forall|k: int| 0 <= k < terms.len() implies covered_by(#[trigger] terms[k], primes) by {
        let m = terms[k];
        let t = Term(m as u64);
        lemma_minterm(m);
        lemma_unmasked(t);
        assert(on.contains(m));
        assert(is_implicant(t, on));
        let p = lemma_prime_above(t, on, bits);
        lemma_generalizes_covers(p, t, m);
        lemma_covered_by_member(m, primes, p);
    }
}

/// A cover drawn from the prime implicants, as a formula, is true exactly
/// on the assignments on which the function is true.
pub proof fn lemma_cover_eval(
    cover: Seq<Term>,
    primes: Seq<Term>,
    on: Set<u32>,
    terms: Seq<u32>,
    bits: nat,
    m: u32,
)
    requires
        bits <= 32,
        on == terms.to_set(),
        within(on, bits),
        m < pow2(bits),
        forall|t: Term| #[trigger] primes.contains(t) <==> is_prime_implicant(t, on),
        forall|t: Term| #[trigger] cover.contains(t) ==> primes.contains(t),
        forall|k: int| 0 <= k < terms.len() ==> covered_by(#[trigger] terms[k], cover),
    ensures
        disjunction(cover, bits).eval(m) <==> terms.contains(m),
{
    lemma_low_mask_pow2(bits);
    lemma_primes_cover(primes, on, terms, bits);
    assert forall|j: int| 0 <= j < cover.len() implies (#[trigger] cover[j]).wf() && cover[j].value()
        | cover[j].mask() <= low_mask(bits) by {
        assert(cover.contains(cover[j]));
        let i = choose|i: int| 0 <= i < primes.len() && primes[i] == cover[j];
    }
    lemma_disjunction_eval(cover, bits, m);
    if exists|j: int| 0 <= j < cover.len() && (#[trigger] cover[j]).covers(m) {
        let j = choose|j: int| 0 <= j < cover.len() && (#[trigger] cover[j]).covers(m);
        assert(cover.contains(cover[j]));
        assert(is_prime_implicant(cover[j], on));
        assert(on.contains(m));
    }
    if terms.contains(m) {
        let k = choose|k: int| 0 <= k < terms.len() && terms[k] == m;
        assert(covered_by(terms[k], cover));
    }
}

} // verus!
