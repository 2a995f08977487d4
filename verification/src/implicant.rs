use crate::bits::{
    lemma_lowest_bit, lemma_popcount_bound, lemma_popcount_set_bit,
    lemma_popcount_single, lemma_popcount_zero, low_mask, lowest_bit,
};
use crate::term::{lemma_join, lemma_pack, lemma_term_ext, pack, Term};
use vstd::prelude::*;

verus! {

/// `t` is an implicant of the function that is true exactly on `on`:
/// every assignment that the term covers is one on which the function is true.
pub open spec fn is_implicant(t: Term, on: Set<u32>) -> bool {
    t.wf() && forall|m: u32| #[trigger] t.covers(m) ==> on.contains(m)
}

/// `t` is a prime implicant: an implicant that no other implicant generalizes.
pub open spec fn is_prime_implicant(t: Term, on: Set<u32>) -> bool {
    is_implicant(t, on) && forall|u: Term|
        is_implicant(u, on) && #[trigger] u.generalizes(t) ==> u == t
}

/// Every assignment of `on` uses only the `bits` lowest positions.
pub open spec fn within(on: Set<u32>, bits: nat) -> bool {
    forall|m: u32| #[trigger] on.contains(m) ==> m <= low_mask(bits)
}

/// The term covers at least the assignment that sets all its don't-cares.
pub proof fn lemma_covers_some(t: Term)
    requires
        t.wf(),
    ensures
        t.covers(t.value()),
        t.covers(t.value() | t.mask()),
{
    let v = t.value();
    let k = t.mask();
    assert(v & k == 0 ==> v & !k == v && (v | k) & !k == v) by (bit_vector);
}

/// An implicant of a function over `bits` variables has at most `bits`
/// don't-cares and at most `bits` ones.
pub proof fn lemma_implicant_fits(t: Term, on: Set<u32>, bits: nat)
    requires
        is_implicant(t, on),
        within(on, bits),
    ensures
        t.order() <= bits,
        t.weight() <= bits,
        t.mask() <= low_mask(bits),
        t.value() <= low_mask(bits),
{
    let v = t.value();
    let k = t.mask();
    let top = low_mask(bits);
    lemma_covers_some(t);
    assert(on.contains(v | k));
    assert(v | k <= top ==> v <= top && k <= top && v & !k <= top) by (bit_vector);
    lemma_popcount_bound(k, bits);
    lemma_popcount_bound(v & !k, bits);
}

/// Joining two implicants gives an implicant of the next order.
pub proof fn lemma_join_implicant(a: Term, b: Term, on: Set<u32>)
    requires
        is_implicant(a, on),
        is_implicant(b, on),
        a.joinable(b),
    ensures
        is_implicant(a.join(b), on),
        a.join(b).order() == a.order() + 1,
{
    lemma_join(a, b);
    let j = a.join(b);
    assert forall|m: u32| #[trigger] j.covers(m) implies on.contains(m) by {
        assert(a.covers(m) || b.covers(m));
    }
}

/// An implicant with a don't-care is the join of two implicants of the
/// order below.
pub proof fn lemma_split(t: Term, on: Set<u32>) -> (p: (Term, Term))
    requires
        is_implicant(t, on),
        t.mask() != 0,
    ensures
        is_implicant(p.0, on),
        is_implicant(p.1, on),
        p.0.joinable(p.1),
        p.0.join(p.1) == t,
        p.0.order() + 1 == t.order(),
        p.1.order() + 1 == t.order(),
{
    let v = t.value();
    let k = t.mask();
    let d = lowest_bit(k);
    lemma_lowest_bit(k);
    let a = Term(pack(v, k ^ d));
    let b = Term(pack(v | d, k ^ d));
    lemma_pack(v, k ^ d);
    lemma_pack(v | d, k ^ d);
    assert(d != 0 && d & ((d - 1) as u32) == 0 && d & k == d && v & k == 0 ==> v & (k ^ d) == 0 && (
    v | d) & (k ^ d) == 0 && v ^ (v | d) == d && v & (v | d) == v && (k ^ d) | (k ^ d) | d == k && (
    k ^ d) & d == 0 && (k ^ d) | d == k) by (bit_vector);
    lemma_popcount_set_bit(k ^ d, d);
    lemma_popcount_single(d);
    assert forall|m: u32| a.covers(m) || b.covers(m) implies #[trigger] on.contains(m) by {
        assert(d & k == d && v & k == 0 && (m & !(k ^ d) == v || m & !(k ^ d) == v | d) ==> m & !k
            == v) by (bit_vector);
        assert(t.covers(m));
    }
    lemma_pack(v & (v | d), (k ^ d) | (k ^ d) | (v ^ (v | d)));
    lemma_term_ext(a.join(b), t);
    (a, b)
}

/// An implicant that joins with no implicant is prime.
pub proof fn lemma_no_partner_is_prime(t: Term, on: Set<u32>)
    requires
        is_implicant(t, on),
        forall|b: Term| is_implicant(b, on) ==> !#[trigger] t.joinable(b),
    ensures
        is_prime_implicant(t, on),
{
    assert forall|u: Term| is_implicant(u, on) && #[trigger] u.generalizes(t) implies u == t by {
        let tv = t.value();
        let tk = t.mask();
        let uv = u.value();
        let uk = u.mask();
        assert(tv & tk == 0 && tv & !uk == uv && tk & !uk == 0 ==> (uk == tk ==> uv == tv) && (uk
            != tk ==> uk & !tk != 0)) by (bit_vector);
        if uk == tk {
            lemma_term_ext(u, t);
        } else {
            let e = uk & !tk;
            let d = lowest_bit(e);
            lemma_lowest_bit(e);
            let b = Term(pack(tv ^ d, tk));
            lemma_pack(tv ^ d, tk);
            assert(d & (uk & !tk) == d && tv & tk == 0 ==> (tv ^ d) & tk == 0 && tv ^ (tv ^ d)
                == d) by (bit_vector);
            lemma_popcount_single(d);
            assert forall|m: u32| #[trigger] b.covers(m) implies on.contains(m) by {
                assert(d & (uk & !tk) == d && tk & !uk == 0 && tv & !uk == uv && m & !tk == tv ^ d
                    ==> m & !uk == uv) by (bit_vector);
                assert(u.covers(m));
            }
            assert(t.joinable(b));
        }
    }
}

/// An implicant that joins with another implicant is not prime.
pub proof fn lemma_partner_not_prime(t: Term, b: Term, on: Set<u32>)
    requires
        is_implicant(t, on),
        is_implicant(b, on),
        t.joinable(b),
    ensures
        !is_prime_implicant(t, on),
{
    lemma_join(t, b);
    lemma_join_implicant(t, b, on);
    assert(t.join(b).generalizes(t));
}

/// No two prime implicants of one function join: neither can be combined
/// with the other into a larger term.
pub proof fn lemma_primes_do_not_join(p: Term, q: Term, on: Set<u32>)
    requires
        is_prime_implicant(p, on),
        is_prime_implicant(q, on),
    ensures
        !p.joinable(q),
{
    if p.joinable(q) {
        lemma_partner_not_prime(p, q, on);
    }
}

/// Below every implicant there is an implicant of each lower order.
pub proof fn lemma_level_down(t: Term, on: Set<u32>, r: nat) -> (u: Term)
    requires
        is_implicant(t, on),
        t.order() >= r,
    ensures
        is_implicant(u, on),
        u.order() == r,
    decreases t.order(),
{
    if t.order() == r {
        t
    } else {
        lemma_popcount_zero(t.mask());
        let p = lemma_split(t, on);
        lemma_level_down(p.0, on, r)
    }
}

/// Every implicant is generalized by a prime implicant.
pub proof fn lemma_prime_above(t: Term, on: Set<u32>, bits: nat) -> (p: Term)
    requires
        is_implicant(t, on),
        within(on, bits),
    ensures
        is_prime_implicant(p, on),
        p.generalizes(t),
    decreases bits - t.order(),
{
    lemma_implicant_fits(t, on, bits);
    if is_prime_implicant(t, on) {
        let v = t.value();
        let k = t.mask();
        assert(v & k == 0 ==> k & !k == 0 && v & !k == v) by (bit_vector);
        t
    } else {
        if forall|b: Term| is_implicant(b, on) ==> !#[trigger] t.joinable(b) {
            lemma_no_partner_is_prime(t, on);
            t
        } else {
            let b = choose|b: Term| is_implicant(b, on) && #[trigger] t.joinable(b);
            lemma_join(t, b);
            lemma_join_implicant(t, b, on);
            let j = t.join(b);
            lemma_implicant_fits(j, on, bits);
            let p = lemma_prime_above(j, on, bits);
            let tv = t.value();
            let tk = t.mask();
            let jv = j.value();
            let jk = j.mask();
            let pv = p.value();
            let pk = p.mask();
            assert(tk & !jk == 0 && tv & !jk == jv && jk & !pk == 0 && jv & !pk == pv ==> tk & !pk
                == 0 && tv & !pk == pv) by (bit_vector);
            p
        }
    }
}

/// What a more general term covers includes what the less general one covers.
pub proof fn lemma_generalizes_covers(u: Term, t: Term, m: u32)
    requires
        u.generalizes(t),
        t.covers(m),
    ensures
        u.covers(m),
{
    let tv = t.value();
    let tk = t.mask();
    let uv = u.value();
    let uk = u.mask();
    assert(tk & !uk == 0 && tv & !uk == uv && m & !tk == tv ==> m & !uk == uv) by (bit_vector);
}

} // verus!
