use crate::bits::{
    bit_at, lemma_low_mask_pow2, lemma_low_mask_step, lemma_popcount_bound,
    lemma_popcount_set_bit, lemma_popcount_single, lemma_zero_mask, low_mask, low_word, popcount,
};
use vstd::arithmetic::power2::{lemma2_to64, lemma_pow2_unfold, pow2};
use vstd::prelude::*;

verus! {

/// The word that holds `value` in its lower half and `mask` in its upper half.
pub open spec fn pack(value: u32, mask: u32) -> u64 {
    ((mask as u64) << 32) | (value as u64)
}

/// `String::push` of the standard library: appends the character to the
/// end of the string. Nothing is proved of it here.
pub assume_specification[ String::push ](s: &mut String, ch: char)
    ensures
        final(s)@ == old(s)@.push(ch),
;

/// A product term over at most 32 variables, packed into one word: the lower
/// half holds the asserted bit of each specified position, the upper half
/// holds a one for each don't-care position.
#[derive(Copy, Clone, PartialEq, Eq, PartialOrd, Ord, Hash, Debug, Structural)]
pub struct Term(pub u64);

impl Term {
    /// The asserted bits.
    pub open spec fn value(self) -> u32 {
        (self.0 & 0xffff_ffff) as u32
    }

    /// The don't-care positions.
    pub open spec fn mask(self) -> u32 {
        (self.0 >> 32) as u32
    }

    /// No position is both specified-and-set and don't-care.
    pub open spec fn wf(self) -> bool {
        self.value() & self.mask() == 0
    }

    /// The assignment `m` agrees with the term on every specified position.
    pub open spec fn covers(self, m: u32) -> bool {
        m & !self.mask() == self.value()
    }

    /// Number of ones among the specified positions.
    pub open spec fn weight(self) -> nat {
        popcount(self.value() & !self.mask())
    }

    /// Number of don't-care positions.
    pub open spec fn order(self) -> nat {
        popcount(self.mask())
    }

    /// The two terms have the same don't-care positions and differ in
    /// exactly one specified position.
    pub open spec fn joinable(self, other: Term) -> bool {
        self.mask() == other.mask() && popcount(self.value() ^ other.value()) == 1
    }

    /// The term that two joinable terms combine into: the position in which
    /// they differ becomes a don't-care.
    pub open spec fn join(self, other: Term) -> Term {
        Term(
            pack(
                self.value() & other.value(),
                self.mask() | other.mask() | (self.value() ^ other.value()),
            ),
        )
    }

    /// `self` is at least as general as `other`: every don't-care of `other`
    /// is one of `self`, and they agree wherever `self` is specified.
    pub open spec fn generalizes(self, other: Term) -> bool {
        other.mask() & !self.mask() == 0 && other.value() & !self.mask() == self.value()
    }

    /// The character that shows position `pos`: `1` or `0` where the
    /// position is specified, `-` where it is a don't-care, and `x` where
    /// the two halves contradict each other.
    pub open spec fn symbol(self, pos: nat) -> char {
        if bit_at(self.mask(), pos) {
            if bit_at(self.value(), pos) {
                'x'
            } else {
                '-'
            }
        } else {
            if bit_at(self.value(), pos) {
                '1'
            } else {
                '0'
            }
        }
    }

    /// Some position from `width` on holds a bit.
    pub open spec fn exceeds(self, width: nat) -> bool {
        (self.value() | self.mask()) & !low_mask(width) != 0
    }

    /// The term written with one character for each of the `width` lowest
    /// positions, highest first, behind an ellipsis where it needs more.
    pub open spec fn rendering(self, width: nat) -> Seq<char> {
        let head = if self.exceeds(width) {
            seq!['\u{2026}']
        } else {
            Seq::<char>::empty()
        };
        head + Seq::new(width, |k: int| self.symbol((width - 1 - k) as nat))
    }

    /// The lower half of the word: the asserted bits.
    pub fn lower(self) -> (r: u32)
        ensures
            r == self.value(),
    {
        let w = self.0;
        assert(w & 0xffff_ffff == (w as u32) as u64) by (bit_vector);
        w as u32
    }

    /// The upper half of the word: the don't-care positions.
    pub fn upper(self) -> (r: u32)
        ensures
            r == self.mask(),
    {
        let w = self.0;
        assert((w >> 32) <= 0xffff_ffff) by (bit_vector);
        (w >> 32) as u32
    }

    /// Number of ones among the specified positions: the weight by which
    /// terms are grouped.
    pub fn ones(self) -> (r: u32)
        ensures
            r == self.weight(),
    {
        let masked = self.lower() & (!self.upper());
        masked.count_ones()
    }

    /// Eight for each don't-care position and one for each specified one:
    /// the score by which ties between covers are broken.
    pub fn rank(self) -> (r: u32)
        ensures
            r == self.order() * 8 + self.weight(),
    {
        proof {
            lemma_popcount_bound(self.mask(), 32);
            lemma_popcount_bound(self.value() & !self.mask(), 32);
        }
        self.upper().count_ones() * 8 + self.ones()
    }

    /// Whether the assignment `m` agrees with the term on every specified position.
    pub fn includes(self, m: u32) -> (r: bool)
        ensures
            r == self.covers(m),
    {
        m & !self.upper() == self.lower()
    }

    /// All assignments that the term covers, in ascending order: each
    /// way of filling in the don't-care positions.
    pub fn permutations(self) -> (r: Vec<u32>)
        requires
            self.wf(),
        ensures
            r.len() == pow2(self.order()),
            forall|i: int, j: int| 0 <= i < j < r.len() ==> r[i] < r[j],
            forall|m: u32| #[trigger] r@.contains(m) <==> self.covers(m),
    {
        let value = self.lower();
        let mask = self.upper();
        let mut result: Vec<u32> = Vec::new();
        result.push(value);
        let mut pos: u32 = 0;
        proof {
            lemma2_to64();
            assert(popcount(0) == 0);
            assert forall|m: u32| #[trigger] result@.contains(m) <==> m & !0u32 == value by {
                lemma_zero_mask(value, m);
                if m == value {
                    assert(result@[0] == m);
                }
            }
            lemma_zero_mask(mask, 0);
            lemma_low_mask_step(0);
        }
        while pos < 32
            invariant
                pos <= 32,
                value == self.value(),
                mask == self.mask(),
                value & mask == 0,
                result.len() == pow2(popcount(mask & low_mask(pos as nat))),
                forall|i: int, j: int| 0 <= i < j < result.len() ==> result[i] < result[j],
                forall|m: u32|
                    #[trigger] result@.contains(m) <==> m & !(mask & low_mask(pos as nat)) == value,
            decreases 32 - pos,
        {
            let d = 1u32 << pos;
            let ghost done = mask & low_mask(pos as nat);
            let ghost snap = result@;
            let ghost low = low_mask(pos as nat);
            proof {
                lemma_low_mask_step(pos as nat);
                lemma_next_position(value, mask, pos, d, low);
            }
            if mask & d != 0 {
                let n = result.len();
                let mut j: usize = 0;
                while j < n
                    invariant
                        j <= n,
                        n == snap.len(),
                        result.len() == n + j,
                        forall|i: int| 0 <= i < n ==> result[i] == snap[i],
                        forall|i: int| 0 <= i < j ==> result[n + i] == snap[i] | d,
                    decreases n - j,
                {
                    let x = result[j];
                    result.push(x | d);
                    j += 1;
                }
                proof {
                    let now = result@;
                    lemma_popcount_set_bit(done, d);
                    lemma_pow2_unfold(popcount(done | d));
                    assert forall|a: int, b: int| 0 <= a < b < now.len() implies now[a] < now[b] by {
                        let xa = if a < n { snap[a] } else { snap[a - n] };
                        let xb = if b < n { snap[b] } else { snap[b - n] };
                        assert(snap.contains(xa));
                        assert(snap.contains(xb));
                        lemma_filled_order(value, mask, pos, d, low, xa, xb);
                        if a >= n {
                            assert(now[a] == snap[a - n] | d);
                            assert(now[b] == snap[b - n] | d);
                        } else if b >= n {
                            assert(now[b] == snap[b - n] | d);
                        }
                    }
                    assert forall|m: u32| #[trigger] now.contains(m) <==> m & !(done | d)
                        == value by {
                        if now.contains(m) {
                            let i = choose|i: int| 0 <= i < now.len() && now[i] == m;
                            let x = if i < n { snap[i] } else { snap[i - n] };
                            assert(snap.contains(x));
                            if i >= n {
                                assert(now[i] == snap[i - n] | d);
                            }
                            lemma_filled_covered(value, done, d, x);
                        }
                        if m & !(done | d) == value {
                            let x = m & !d;
                            lemma_covered_filled(value, done, d, m);
                            assert(snap.contains(x));
                            let i = choose|i: int| 0 <= i < snap.len() && snap[i] == x;
                            if m == x {
                                assert(now[i] == m);
                            } else {
                                assert(now[n + i] == m);
                            }
                        }
                    }
                }
            }
            pos += 1;
        }
        proof {
            assert(mask & 0xffff_ffffu32 == mask) by (bit_vector);
        }
        result
    }

    /// The term as text: one character for each of the `width` lowest
    /// positions, highest first, behind an ellipsis where the term needs more.
    pub fn render(self, width: usize) -> (r: String)
        ensures
            r@ == self.rendering(width as nat),
    {
        let low = self.lower();
        let high = self.upper();
        let limit = low_word(width);
        let mut result = String::new();
        if (low | high) & !limit != 0 {
            result.push('\u{2026}');
        }
        let ghost head = result@;
        let mut i: usize = width;
        while i > 0
            invariant
                i <= width,
                low == self.value(),
                high == self.mask(),
                result@ == head + Seq::new(
                    (width - i) as nat,
                    |k: int| self.symbol((width - 1 - k) as nat),
                ),
            decreases i,
        {
            i -= 1;
            let c = if i >= 32 {
                '0'
            } else {
                let pos = i as u32;
                if (high >> pos) & 1 == 1 {
                    if (low >> pos) & 1 == 1 {
                        'x'
                    } else {
                        '-'
                    }
                } else {
                    if (low >> pos) & 1 == 1 {
                        '1'
                    } else {
                        '0'
                    }
                }
            };
            result.push(c);
            assert(c == self.symbol(i as nat));
            assert(result@ =~= head + Seq::new(
                (width - i) as nat,
                |k: int| self.symbol((width - 1 - k) as nat),
            ));
        }
        assert(result@ =~= self.rendering(width as nat));
        result
    }

    /// Combines two terms that have the same don't-care positions and
    /// differ in exactly one specified position; other pairs give nothing.
    pub fn try_join(self, other: Term) -> (r: Option<Term>)
        ensures
            r == if self.joinable(other) {
                Some(self.join(other))
            } else {
                None
            },
    {
        if self.upper() != other.upper() {
            return None;
        }
        let difference = self.lower() ^ other.lower();
        if difference.count_ones() != 1 {
            return None;
        }
        let wide = difference as u64;
        let a = self.0;
        let b = other.0;
        let val = (a & b) | (wide << 32);
        proof {
            lemma_joined_word(a, b, wide);
        }
        Some(Term(val))
    }
}

/// Packing and unpacking are inverse to each other.
pub proof fn lemma_pack(value: u32, mask: u32)
    ensures
        Term(pack(value, mask)).value() == value,
        Term(pack(value, mask)).mask() == mask,
{
    assert(((((mask as u64) << 32) | (value as u64)) & 0xffff_ffff) as u32 == value && ((((
    mask as u64) << 32) | (value as u64)) >> 32) as u32 == mask) by (bit_vector);
}

/// A term is determined by its asserted bits and its don't-care positions.
pub proof fn lemma_term_ext(a: Term, b: Term)
    requires
        a.value() == b.value(),
        a.mask() == b.mask(),
    ensures
        a == b,
{
    let x = a.0;
    let y = b.0;
    assert((x & 0xffff_ffff) as u32 == (y & 0xffff_ffff) as u32 && (x >> 32) as u32 == (y >> 32) as u32
        ==> x == y) by (bit_vector);
}

/// Whether two terms join does not depend on their order.
pub proof fn lemma_joinable_sym(a: Term, b: Term)
    ensures
        a.joinable(b) == b.joinable(a),
{
    let x = a.value();
    let y = b.value();
    assert(x ^ y == y ^ x) by (bit_vector);
}

/// What joining two well-formed terms gives: a well-formed term of the next
/// order that covers exactly what the two cover together, that generalizes
/// both, and whose parts differ in weight by one.
pub proof fn lemma_join(a: Term, b: Term)
    requires
        a.wf(),
        b.wf(),
        a.joinable(b),
    ensures
        b.joinable(a),
        a.join(b) == b.join(a),
        a.join(b).wf(),
        a.join(b).order() == a.order() + 1,
        a.join(b).generalizes(a),
        a.join(b).generalizes(b),
        a.join(b) != a,
        a.join(b) != b,
        forall|m: u32| #[trigger] a.join(b).covers(m) <==> a.covers(m) || b.covers(m),
        a.weight() + 1 == b.weight() || b.weight() + 1 == a.weight(),
{
    let av = a.value();
    let bv = b.value();
    let k = a.mask();
    let d = av ^ bv;
    lemma_popcount_single(d);
    lemma_join_bits(av, bv, k, d);
    lemma_pack(av & bv, k | k | d);
    lemma_pack(bv & av, k | k | (bv ^ av));
    let j = a.join(b);
    assert(j.mask() == k | d);
    lemma_popcount_set_bit(k, d);
    assert forall|m: u32| #[trigger] j.covers(m) <==> a.covers(m) || b.covers(m) by {
        lemma_join_covers_bits(av, bv, k, d, m);
    }
    // one of the two has the differing bit set, the other has it clear
    if av & d == 0 && bv == av | d {
        lemma_popcount_set_bit(av, d);
    } else {
        lemma_popcount_set_bit(bv, d);
    }
}

/// A term without don't-cares is well-formed and covers its own value only.
pub proof fn lemma_unmasked(t: Term)
    requires
        t.mask() == 0,
    ensures
        t.wf(),
        forall|m: u32| #[trigger] t.covers(m) <==> m == t.value(),
{
    let v = t.value();
    assert forall|m: u32| #[trigger] t.covers(m) <==> m == v by {
        lemma_zero_mask(v, m);
    }
    lemma_zero_mask(v, v);
}

/// The halves of the word that `try_join` puts together.
proof fn lemma_joined_word(a: u64, b: u64, wide: u64)
    by (bit_vector)
    requires
        (a >> 32) as u32 == (b >> 32) as u32,
        wide == (((a & 0xffff_ffff) as u32) ^ ((b & 0xffff_ffff) as u32)) as u64,
    ensures
        (a & b) | (wide << 32) == ((((a >> 32) as u32 | (b >> 32) as u32 | (((a & 0xffff_ffff) as u32)
            ^ ((b & 0xffff_ffff) as u32))) as u64) << 32) | ((((a & 0xffff_ffff) as u32) & ((b
            & 0xffff_ffff) as u32)) as u64),
{
}

/// Two values `av` and `bv` under one mask `k` that differ in the single
/// bit `d`: how the mask `k | d` and the value `av & bv` relate to them.
proof fn lemma_join_bits(av: u32, bv: u32, k: u32, d: u32)
    by (bit_vector)
    requires
        d != 0 && d & ((d - 1) as u32) == 0,
        av & k == 0,
        bv & k == 0,
        d == av ^ bv,
    ensures
        k & d == 0,
        (av & bv) & (k | d) == 0,
        k & !(k | d) == 0,
        av & !(k | d) == av & bv,
        bv & !(k | d) == av & bv,
        k | d != k,
        av ^ bv == bv ^ av,
        av & bv == bv & av,
        k | k | d == k | d,
        av & !k == av,
        bv & !k == bv,
        (av & d == 0 && bv == av | d) || (bv & d == 0 && av == bv | d),
{
}

/// The join covers an assignment exactly when one of the two parts does.
proof fn lemma_join_covers_bits(av: u32, bv: u32, k: u32, d: u32, m: u32)
    by (bit_vector)
    requires
        d != 0 && d & ((d - 1) as u32) == 0,
        av & k == 0,
        bv & k == 0,
        d == av ^ bv,
    ensures
        m & !(k | d) == av & bv <==> m & !k == av || m & !k == bv,
{
}

/// Going from the positions below `pos` to those below `pos + 1`, where
/// `d` is the bit of `pos` and `low` holds the bits below it.
proof fn lemma_next_position(value: u32, mask: u32, pos: u32, d: u32, low: u32)
    by (bit_vector)
    requires
        pos < 32,
        d == 1u32 << pos,
        low == ((1u32 << pos) - 1) as u32,
    ensures
        d != 0 && d & ((d - 1) as u32) == 0,
        (mask & low) & d == 0,
        mask & d != 0 ==> mask & (low | d) == (mask & low) | d,
        mask & d == 0 ==> mask & (low | d) == mask & low,
        value & mask == 0 && mask & d != 0 ==> value & d == 0,
{
}

/// Two assignments that fill in don't-cares below `pos` only: with the
/// bit of `pos` set, either comes after the other without it, and setting
/// it in both keeps their order.
proof fn lemma_filled_order(value: u32, mask: u32, pos: u32, d: u32, low: u32, xa: u32, xb: u32)
    by (bit_vector)
    requires
        pos < 32,
        d == 1u32 << pos,
        low == ((1u32 << pos) - 1) as u32,
        value & d == 0,
        xa & !(mask & low) == value,
        xb & !(mask & low) == value,
    ensures
        xa < (xb | d),
        xa < xb ==> (xa | d) < (xb | d),
{
}

/// An assignment covered with the don't-cares `done` is covered with one
/// more don't-care `d`, with that bit clear and with it set.
proof fn lemma_filled_covered(value: u32, done: u32, d: u32, x: u32)
    by (bit_vector)
    requires
        value & d == 0,
        done & d == 0,
        x & !done == value,
    ensures
        x & !(done | d) == value,
        (x | d) & !(done | d) == value,
{
}

/// An assignment covered with the don't-cares `done` and the single bit
/// `d` is, with that bit cleared, covered with `done` alone.
proof fn lemma_covered_filled(value: u32, done: u32, d: u32, m: u32)
    by (bit_vector)
    requires
        d != 0 && d & ((d - 1) as u32) == 0,
        m & !(done | d) == value,
    ensures
        (m & !d) & !done == value,
        m == m & !d || m == (m & !d) | d,
{
}

/// The fully specified term of an assignment.
pub proof fn lemma_minterm(m: u32)
    ensures
        Term(m as u64).value() == m,
        Term(m as u64).mask() == 0,
{
    assert((((m as u64) & 0xffff_ffff) as u32) == m && (((m as u64) >> 32) as u32) == 0)
        by (bit_vector);
}

/// A word below `2^bits` is the fully specified term of an assignment of
/// `bits` variables.
pub proof fn lemma_word_is_minterm(t: Term, bits: nat)
    requires
        bits <= 32,
        t.0 < pow2(bits),
    ensures
        t.mask() == 0,
        t.value() == t.0,
        t.value() <= low_mask(bits),
        t == Term(t.value() as u64),
{
    lemma_low_mask_pow2(bits);
    let w = t.0;
    assert(w <= 0xffff_ffff ==> (w >> 32) as u32 == 0 && ((w & 0xffff_ffff) as u32) as u64 == w)
        by (bit_vector);
}

} // verus!
