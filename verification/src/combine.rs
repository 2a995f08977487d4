use crate::sorted::{insert_unique, strictly_increasing};
use crate::term::{lemma_join, lemma_joinable_sym, Term};
use vstd::prelude::*;

verus! {

/// One of the first `n` terms of `s` joins with `x`.
pub open spec fn partner_upto(x: Term, s: Seq<Term>, n: int) -> bool {
    exists|j: int| 0 <= j < n && x.joinable(#[trigger] s[j])
}

/// Some term of `s` joins with `x`.
pub open spec fn has_partner(x: Term, s: Seq<Term>) -> bool {
    partner_upto(x, s, s.len() as int)
}

/// `t` is the join of `x` with one of the first `n` terms of `hi`.
pub open spec fn joins_with(t: Term, x: Term, hi: Seq<Term>, n: int) -> bool {
    exists|j: int| 0 <= j < n && x.joinable(#[trigger] hi[j]) && t == x.join(hi[j])
}

/// `t` is the join of one of the first `n` terms of `lo` with a term of `hi`.
pub open spec fn joined_rows(t: Term, lo: Seq<Term>, hi: Seq<Term>, n: int) -> bool {
    exists|i: int| 0 <= i < n && joins_with(t, #[trigger] lo[i], hi, hi.len() as int)
}

/// `t` is the join of a term of `lo` with a term of `hi`.
pub open spec fn is_join_of(t: Term, lo: Seq<Term>, hi: Seq<Term>) -> bool {
    joined_rows(t, lo, hi, lo.len() as int)
}

/// Looking for a partner among one more term.
proof fn lemma_partner_step(x: Term, s: Seq<Term>, n: int)
    requires
        0 <= n < s.len(),
    ensures
        partner_upto(x, s, n + 1) == (partner_upto(x, s, n) || x.joinable(s[n])),
        !partner_upto(x, s, 0),
{
    if partner_upto(x, s, n + 1) {
        let j = choose|j: int| 0 <= j < n + 1 && x.joinable(#[trigger] s[j]);
        if j < n {
            assert(partner_upto(x, s, n));
        }
    }
    if partner_upto(x, s, n) {
        let j = choose|j: int| 0 <= j < n && x.joinable(#[trigger] s[j]);
        assert(0 <= j < n + 1 && x.joinable(s[j]));
    }
    if x.joinable(s[n]) {
        assert(0 <= n < n + 1 && x.joinable(s[n]));
    }
}

/// Looking for a join with one more term.
proof fn lemma_joins_step(t: Term, x: Term, hi: Seq<Term>, n: int)
    requires
        0 <= n < hi.len(),
    ensures
        joins_with(t, x, hi, n + 1) == (joins_with(t, x, hi, n) || (x.joinable(hi[n]) && t
            == x.join(hi[n]))),
        !joins_with(t, x, hi, 0),
{
    if joins_with(t, x, hi, n + 1) {
        let j = choose|j: int| 0 <= j < n + 1 && x.joinable(#[trigger] hi[j]) && t == x.join(hi[j]);
        if j < n {
            assert(joins_with(t, x, hi, n));
        }
    }
    if joins_with(t, x, hi, n) {
        let j = choose|j: int| 0 <= j < n && x.joinable(#[trigger] hi[j]) && t == x.join(hi[j]);
        assert(0 <= j < n + 1 && x.joinable(hi[j]) && t == x.join(hi[j]));
    }
    if x.joinable(hi[n]) && t == x.join(hi[n]) {
        assert(0 <= n < n + 1 && x.joinable(hi[n]) && t == x.join(hi[n]));
    }
}

/// Looking for a join with the terms of `hi` from one more term of `lo`.
proof fn lemma_rows_step(t: Term, lo: Seq<Term>, hi: Seq<Term>, n: int)
    requires
        0 <= n < lo.len(),
    ensures
        joined_rows(t, lo, hi, n + 1) == (joined_rows(t, lo, hi, n) || joins_with(
            t,
            lo[n],
            hi,
            hi.len() as int,
        )),
        !joined_rows(t, lo, hi, 0),
{
    if joined_rows(t, lo, hi, n + 1) {
        let i = choose|i: int| 0 <= i < n + 1 && joins_with(t, #[trigger] lo[i], hi, hi.len() as int);
        if i < n {
            assert(joined_rows(t, lo, hi, n));
        }
    }
    if joined_rows(t, lo, hi, n) {
        let i = choose|i: int| 0 <= i < n && joins_with(t, #[trigger] lo[i], hi, hi.len() as int);
        assert(0 <= i < n + 1 && joins_with(t, lo[i], hi, hi.len() as int));
    }
    if joins_with(t, lo[n], hi, hi.len() as int) {
        assert(0 <= n < n + 1 && joins_with(t, lo[n], hi, hi.len() as int));
    }
}

/// A vector of `n` flags, none of them set.
fn cleared_flags(n: usize) -> (r: Vec<bool>)
    ensures
        r.len() == n,
        forall|i: int| 0 <= i < n ==> !r[i],
{
    let mut r: Vec<bool> = Vec::new();
    let mut i: usize = 0;
    while i < n
        invariant
            i <= n,
            r.len() == i,
            forall|j: int| 0 <= j < i ==> !r[j],
        decreases n - i,
    {
        r.push(false);
        i += 1;
    }
    r
}

/// The terms are partitioned by weight into `bits + 1` groups.
pub open spec fn grouped(terms: Seq<Term>, groups: Seq<Vec<Term>>, bits: nat) -> bool {
    &&& groups.len() == bits + 1
    &&& forall|k: int, a: int|
        0 <= k < groups.len() && 0 <= a < groups[k]@.len() ==> (#[trigger] groups[k]@[a]).weight()
            == k && terms.contains(groups[k]@[a])
    &&& forall|i: int|
        0 <= i < terms.len() ==> (#[trigger] terms[i]).weight() <= bits && groups[terms[i].weight() as int]@.contains(
            terms[i],
        )
}

/// Partitions the terms by their number of ones.
pub fn group_by_weight(bits: usize, terms: &Vec<Term>) -> (groups: Vec<Vec<Term>>)
    requires
        bits <= 32,
        forall|i: int| 0 <= i < terms.len() ==> (#[trigger] terms[i]).weight() <= bits,
    ensures
        grouped(terms@, groups@, bits as nat),
{
    let mut groups: Vec<Vec<Term>> = Vec::new();
    let mut k: usize = 0;
    while k <= bits
        invariant
            bits <= 32,
            k <= bits + 1,
            groups.len() == k,
            forall|g: int, a: int|
                0 <= g < k && 0 <= a < groups[g]@.len() ==> (#[trigger] groups[g]@[a]).weight() == g
                    && terms@.contains(groups[g]@[a]),
            forall|i: int|
                0 <= i < terms.len() && (#[trigger] terms[i]).weight() < k
                    ==> groups[terms[i].weight() as int]@.contains(terms[i]),
        decreases bits + 1 - k,
    {
        let mut group: Vec<Term> = Vec::new();
        let mut i: usize = 0;
        while i < terms.len()
            invariant
                i <= terms.len(),
                forall|a: int|
                    0 <= a < group.len() ==> (#[trigger] group[a]).weight() == k && terms@.contains(
                        group[a],
                    ),
                forall|j: int|
                    0 <= j < i && (#[trigger] terms[j]).weight() == k ==> group@.contains(terms[j]),
            decreases terms.len() - i,
        {
            let t = terms[i];
            if t.ones() as usize == k {
                let ghost before = group@;
                group.push(t);
                assert(group@[before.len() as int] == t);
                assert forall|j: int|
                    0 <= j < i + 1 && (#[trigger] terms[j]).weight() == k implies group@.contains(
                    terms[j],
                ) by {
                    if j < i {
                        let a = choose|a: int| 0 <= a < before.len() && before[a] == terms[j];
                        assert(group@[a] == terms[j]);
                    }
                }
            }
            i += 1;
        }
        let ghost before = groups@;
        groups.push(group);
        assert(forall|g: int| 0 <= g < k ==> groups@[g] == before[g]);
        k += 1;
    }
    groups
}

/// Tries to join `x` with every term of `hi`. Each join goes into `next`;
/// the flag of each term of `hi` that joined is set, and the result says
/// whether any did.
pub fn combine_with(x: Term, hi: &Vec<Term>, hi_used: &mut Vec<bool>, next: &mut Vec<Term>) -> (used:
    bool)
    requires
        strictly_increasing(old(next)@),
        old(hi_used).len() == hi.len(),
    ensures
        strictly_increasing(final(next)@),
        final(hi_used).len() == hi.len(),
        used == has_partner(x, hi@),
        forall|j: int|
            0 <= j < hi.len() ==> #[trigger] final(hi_used)[j] == (old(hi_used)[j] || x.joinable(
                hi[j],
            )),
        forall|t: Term|
            final(next)@.contains(t) <==> old(next)@.contains(t) || joins_with(
                t,
                x,
                hi@,
                hi.len() as int,
            ),
{
    let ghost before = next@;
    let ghost flags = hi_used@;
    let mut used = false;
    let mut b: usize = 0;
    while b < hi.len()
        invariant
            b <= hi.len(),
            strictly_increasing(next@),
            hi_used.len() == hi.len(),
            flags.len() == hi.len(),
            used == partner_upto(x, hi@, b as int),
            forall|j: int|
                0 <= j < hi.len() ==> #[trigger] hi_used[j] == (flags[j] || (j < b && x.joinable(
                    hi[j],
                ))),
            forall|t: Term|
                #[trigger] next@.contains(t) <==> before.contains(t) || joins_with(
                    t,
                    x,
                    hi@,
                    b as int,
                ),
        decreases hi.len() - b,
    {
        let ghost so_far = next@;
        proof {
            lemma_partner_step(x, hi@, b as int);
        }
        match x.try_join(hi[b]) {
            Some(t) => {
                insert_unique(next, t);
                hi_used.set(b, true);
                used = true;
            },
            None => {},
        }
        b += 1;
        proof {
            assert forall|t: Term|
                #[trigger] next@.contains(t) <==> before.contains(t) || joins_with(
                    t,
                    x,
                    hi@,
                    b as int,
                ) by {
                lemma_joins_step(t, x, hi@, b - 1);
                assert(so_far.contains(t) <==> before.contains(t) || joins_with(t, x, hi@, b - 1));
            }
        }
    }
    proof {
        if hi.len() == 0 {
            assert(!partner_upto(x, hi@, 0));
        }
    }
    used
}

/// `y` joins with one of the first `n` terms of `lo`.
pub open spec fn partnered_by(y: Term, lo: Seq<Term>, n: int) -> bool {
    exists|i: int| 0 <= i < n && (#[trigger] lo[i]).joinable(y)
}

/// Looking among one more term of `lo` for one that joins with `y`.
proof fn lemma_partnered_step(y: Term, lo: Seq<Term>, n: int)
    requires
        0 <= n < lo.len(),
    ensures
        partnered_by(y, lo, n + 1) == (partnered_by(y, lo, n) || lo[n].joinable(y)),
        !partnered_by(y, lo, 0),
{
    if partnered_by(y, lo, n + 1) {
        let i = choose|i: int| 0 <= i < n + 1 && (#[trigger] lo[i]).joinable(y);
        if i < n {
            assert(partnered_by(y, lo, n));
        }
    }
    if partnered_by(y, lo, n) {
        let i = choose|i: int| 0 <= i < n && (#[trigger] lo[i]).joinable(y);
        assert(0 <= i < n + 1 && lo[i].joinable(y));
    }
    if lo[n].joinable(y) {
        assert(0 <= n < n + 1 && lo[n].joinable(y));
    }
}

/// A term joins with one of `lo` exactly when one of `lo` joins with it.
proof fn lemma_partnered_sym(y: Term, lo: Seq<Term>)
    ensures
        partnered_by(y, lo, lo.len() as int) == has_partner(y, lo),
{
    if partnered_by(y, lo, lo.len() as int) {
        let i = choose|i: int| 0 <= i < lo.len() && (#[trigger] lo[i]).joinable(y);
        lemma_joinable_sym(lo[i], y);
        assert(y.joinable(lo[i]));
    }
    if has_partner(y, lo) {
        let i = choose|i: int| 0 <= i < lo.len() && y.joinable(#[trigger] lo[i]);
        lemma_joinable_sym(lo[i], y);
        assert(lo[i].joinable(y));
    }
}

/// Tries every pair of a term of `lo` with a term of `hi`. Each join goes
/// into `next`; the flags say which terms took part in one.
pub fn combine_pair(lo: &Vec<Term>, hi: &Vec<Term>, next: &mut Vec<Term>) -> (used: (
    Vec<bool>,
    Vec<bool>,
))
    requires
        strictly_increasing(old(next)@),
    ensures
        strictly_increasing(final(next)@),
        used.0.len() == lo.len(),
        used.1.len() == hi.len(),
        forall|a: int| 0 <= a < lo.len() ==> #[trigger] used.0[a] == has_partner(lo[a], hi@),
        forall|b: int| 0 <= b < hi.len() ==> #[trigger] used.1[b] == has_partner(hi[b], lo@),
        forall|t: Term|
            final(next)@.contains(t) <==> old(next)@.contains(t) || is_join_of(t, lo@, hi@),
{
    let ghost before = next@;
    let mut lo_used: Vec<bool> = Vec::new();
    let mut hi_used = cleared_flags(hi.len());
    let mut a: usize = 0;
    proof {
        assert forall|j: int| 0 <= j < hi.len() implies #[trigger] hi_used[j] == partnered_by(
            hi[j],
            lo@,
            0,
        ) by {}
    }
    while a < lo.len()
        invariant
            a <= lo.len(),
            strictly_increasing(next@),
            lo_used.len() == a,
            hi_used.len() == hi.len(),
            forall|i: int| 0 <= i < a ==> #[trigger] lo_used[i] == has_partner(lo[i], hi@),
            forall|j: int|
                0 <= j < hi.len() ==> #[trigger] hi_used[j] == partnered_by(hi[j], lo@, a as int),
            forall|t: Term|
                #[trigger] next@.contains(t) <==> before.contains(t) || joined_rows(
                    t,
                    lo@,
                    hi@,
                    a as int,
                ),
        decreases lo.len() - a,
    {
        let ghost flags = hi_used@;
        let ghost so_far = next@;
        let used = combine_with(lo[a], hi, &mut hi_used, next);
        lo_used.push(used);
        proof {
            assert forall|j: int| 0 <= j < hi.len() implies #[trigger] hi_used[j] == partnered_by(
                hi[j],
                lo@,
                a + 1,
            ) by {
                lemma_partnered_step(hi[j], lo@, a as int);
                assert(hi_used[j] == (flags[j] || lo[a as int].joinable(hi[j])));
            }
        }
        a += 1;
        proof {
            assert forall|t: Term|
                #[trigger] next@.contains(t) <==> before.contains(t) || joined_rows(
                    t,
                    lo@,
                    hi@,
                    a as int,
                ) by {
                lemma_rows_step(t, lo@, hi@, a - 1);
                assert(so_far.contains(t) <==> before.contains(t) || joined_rows(
                    t,
                    lo@,
                    hi@,
                    a - 1,
                ));
            }
        }
    }
    proof {
        assert forall|j: int| 0 <= j < hi.len() implies #[trigger] hi_used[j] == has_partner(
            hi[j],
            lo@,
        ) by {
            lemma_partnered_sym(hi[j], lo@);
        }
    }
    (lo_used, hi_used)
}

/// Appends the terms of `group` whose flag is set in neither vector.
fn emit_survivors(group: &Vec<Term>, below: &Vec<bool>, above: &Vec<bool>, out: &mut Vec<Term>)
    requires
        below.len() == group.len(),
        above.len() == group.len(),
    ensures
        forall|t: Term|
            #[trigger] final(out)@.contains(t) <==> old(out)@.contains(t) || exists|a: int|
                0 <= a < group.len() && #[trigger] group[a] == t && !below[a] && !above[a],
{
    let ghost before = out@;
    let mut a: usize = 0;
    while a < group.len()
        invariant
            a <= group.len(),
            below.len() == group.len(),
            above.len() == group.len(),
            forall|t: Term|
                #[trigger] out@.contains(t) <==> before.contains(t) || exists|i: int|
                    0 <= i < a && #[trigger] group[i] == t && !below[i] && !above[i],
        decreases group.len() - a,
    {
        let ghost so_far = out@;
        if !below[a] && !above[a] {
            out.push(group[a]);
        }
        a += 1;
        proof {
            assert forall|t: Term|
                #[trigger] out@.contains(t) <==> before.contains(t) || exists|i: int|
                    0 <= i < a && #[trigger] group[i] == t && !below[i] && !above[i] by {
                let kept = !below[a - 1] && !above[a - 1];
                if out@.contains(t) {
                    let j = choose|j: int| 0 <= j < out@.len() && out@[j] == t;
                    if j < so_far.len() {
                        assert(so_far[j] == t);
                        assert(so_far.contains(t));
                    } else {
                        assert(group[a - 1] == t && kept);
                    }
                }
                if so_far.contains(t) {
                    let j = choose|j: int| 0 <= j < so_far.len() && so_far[j] == t;
                    assert(out@[j] == t);
                }
                if exists|i: int| 0 <= i < a && #[trigger] group[i] == t && !below[i] && !above[i] {
                    let i = choose|i: int|
                        0 <= i < a && #[trigger] group[i] == t && !below[i] && !above[i];
                    if i == a - 1 {
                        assert(out@[so_far.len() as int] == t);
                    } else {
                        assert(0 <= i < a - 1 && group[i] == t && !below[i] && !above[i]);
                    }
                }
            }
        }
    }
}

/// `t` is the join of two terms of adjacent groups among the first `k + 1`.
pub open spec fn joined_groups(t: Term, groups: Seq<Vec<Term>>, k: int) -> bool {
    exists|g: int| 0 <= g < k && is_join_of(t, (#[trigger] groups[g])@, groups[g + 1]@)
}

/// How many pairs of adjacent groups have been combined when the walk
/// stands at group `k`.
pub open spec fn pairs_done(k: int, bits: int) -> int {
    if k <= bits {
        k
    } else {
        bits
    }
}

/// `t` stands in one of the first `k` groups and joins with no term at all.
pub open spec fn lone_in_groups(t: Term, terms: Seq<Term>, groups: Seq<Vec<Term>>, k: int) -> bool {
    !has_partner(t, terms) && exists|g: int| 0 <= g < k && (#[trigger] groups[g])@.contains(t)
}

/// A term's partners stand in the two groups next to its own.
proof fn lemma_partner_in_groups(terms: Seq<Term>, groups: Seq<Vec<Term>>, bits: nat, k: int, a: int)
    requires
        grouped(terms, groups, bits),
        forall|i: int| 0 <= i < terms.len() ==> (#[trigger] terms[i]).wf(),
        0 <= k <= bits,
        0 <= a < groups[k]@.len(),
    ensures
        has_partner(groups[k]@[a], terms) == ((k > 0 && has_partner(groups[k]@[a], groups[k - 1]@))
            || (k < bits && has_partner(groups[k]@[a], groups[k + 1]@))),
{
    let x = groups[k]@[a];
    assert(x.weight() == k && terms.contains(x));
    if has_partner(x, terms) {
        let j = choose|j: int| 0 <= j < terms.len() && x.joinable(#[trigger] terms[j]);
        let y = terms[j];
        lemma_join(x, y);
        let w = y.weight() as int;
        assert(groups[w]@.contains(y));
        let b = choose|b: int| 0 <= b < groups[w]@.len() && groups[w]@[b] == y;
        assert(x.joinable(groups[w]@[b]));
        assert(has_partner(x, groups[w]@));
    }
    if k > 0 && has_partner(x, groups[k - 1]@) {
        let b = choose|b: int| 0 <= b < groups[k - 1]@.len() && x.joinable(#[trigger] groups[k - 1]@[b]);
        let y = groups[k - 1]@[b];
        assert(terms.contains(y));
        let j = choose|j: int| 0 <= j < terms.len() && terms[j] == y;
        assert(x.joinable(terms[j]));
    }
    if k < bits && has_partner(x, groups[k + 1]@) {
        let b = choose|b: int| 0 <= b < groups[k + 1]@.len() && x.joinable(#[trigger] groups[k + 1]@[b]);
        let y = groups[k + 1]@[b];
        assert(terms.contains(y));
        let j = choose|j: int| 0 <= j < terms.len() && terms[j] == y;
        assert(x.joinable(terms[j]));
    }
}

/// Every join of two terms is a join across two adjacent groups.
proof fn lemma_joins_in_groups(terms: Seq<Term>, groups: Seq<Vec<Term>>, bits: nat, t: Term)
    requires
        grouped(terms, groups, bits),
        forall|i: int| 0 <= i < terms.len() ==> (#[trigger] terms[i]).wf(),
    ensures
        is_join_of(t, terms, terms) == joined_groups(t, groups, bits as int),
{
    if is_join_of(t, terms, terms) {
        let i = choose|i: int|
            0 <= i < terms.len() && joins_with(t, #[trigger] terms[i], terms, terms.len() as int);
        let x = terms[i];
        let j = choose|j: int|
            0 <= j < terms.len() && x.joinable(#[trigger] terms[j]) && t == x.join(terms[j]);
        let y = terms[j];
        lemma_join(x, y);
        let wx = x.weight() as int;
        let wy = y.weight() as int;
        assert(groups[wx]@.contains(x));
        assert(groups[wy]@.contains(y));
        let a = choose|a: int| 0 <= a < groups[wx]@.len() && groups[wx]@[a] == x;
        let b = choose|b: int| 0 <= b < groups[wy]@.len() && groups[wy]@[b] == y;
        if wx + 1 == wy {
            let lo = groups[wx]@;
            let hi = groups[wy]@;
            assert(lo[a].joinable(hi[b]) && t == lo[a].join(hi[b]));
            assert(joins_with(t, lo[a], hi, hi.len() as int));
            assert(is_join_of(t, groups[wx]@, groups[wx + 1]@));
        } else {
            let lo = groups[wy]@;
            let hi = groups[wx]@;
            assert(lo[b].joinable(hi[a]) && t == lo[b].join(hi[a]));
            assert(joins_with(t, lo[b], hi, hi.len() as int));
            assert(is_join_of(t, groups[wy]@, groups[wy + 1]@));
        }
    }
    if joined_groups(t, groups, bits as int) {
        let g = choose|g: int|
            0 <= g < bits && is_join_of(t, (#[trigger] groups[g])@, groups[g + 1]@);
        let lo = groups[g]@;
        let hi = groups[g + 1]@;
        let a = choose|a: int|
            0 <= a < lo.len() && joins_with(t, #[trigger] lo[a], hi, hi.len() as int);
        let b = choose|b: int|
            0 <= b < hi.len() && lo[a].joinable(#[trigger] hi[b]) && t == lo[a].join(hi[b]);
        assert(terms.contains(groups[g]@[a]));
        assert(terms.contains(groups[g + 1]@[b]));
        let i = choose|i: int| 0 <= i < terms.len() && terms[i] == lo[a];
        let j = choose|j: int| 0 <= j < terms.len() && terms[j] == hi[b];
        assert(terms[i].joinable(terms[j]) && t == terms[i].join(terms[j]));
        assert(joins_with(t, terms[i], terms, terms.len() as int));
    }
}

/// Looking for a join across one more pair of adjacent groups.
proof fn lemma_joined_groups_step(t: Term, groups: Seq<Vec<Term>>, k: int)
    requires
        0 <= k,
    ensures
        joined_groups(t, groups, k + 1) == (joined_groups(t, groups, k) || is_join_of(
            t,
            groups[k]@,
            groups[k + 1]@,
        )),
        !joined_groups(t, groups, 0),
{
    if joined_groups(t, groups, k + 1) {
        let g = choose|g: int|
            0 <= g < k + 1 && is_join_of(t, (#[trigger] groups[g])@, groups[g + 1]@);
        if g < k {
            assert(joined_groups(t, groups, k));
        }
    }
    if joined_groups(t, groups, k) {
        let g = choose|g: int| 0 <= g < k && is_join_of(t, (#[trigger] groups[g])@, groups[g + 1]@);
        assert(0 <= g < k + 1 && is_join_of(t, groups[g]@, groups[g + 1]@));
    }
    if is_join_of(t, groups[k]@, groups[k + 1]@) {
        assert(0 <= k < k + 1 && is_join_of(t, groups[k]@, groups[k + 1]@));
    }
}

/// Looking for a term without partner in one more group.
proof fn lemma_lone_step(t: Term, terms: Seq<Term>, groups: Seq<Vec<Term>>, k: int)
    requires
        0 <= k,
    ensures
        lone_in_groups(t, terms, groups, k + 1) == (lone_in_groups(t, terms, groups, k) || (
        !has_partner(t, terms) && groups[k]@.contains(t))),
        !lone_in_groups(t, terms, groups, 0),
{
    if lone_in_groups(t, terms, groups, k + 1) {
        let g = choose|g: int| 0 <= g < k + 1 && (#[trigger] groups[g])@.contains(t);
        if g < k {
            assert(lone_in_groups(t, terms, groups, k));
        }
    }
    if lone_in_groups(t, terms, groups, k) {
        let g = choose|g: int| 0 <= g < k && (#[trigger] groups[g])@.contains(t);
        assert(0 <= g < k + 1 && groups[g]@.contains(t));
    }
    if !has_partner(t, terms) && groups[k]@.contains(t) {
        assert(0 <= k < k + 1 && groups[k]@.contains(t));
    }
}

/// One round of combining: the joins of all pairs of terms, in ascending
/// order and each once, and the terms that joined with none.
pub fn combine_round(bits: usize, terms: &Vec<Term>) -> (out: (Vec<Term>, Vec<Term>))
    requires
        bits <= 32,
        forall|i: int| 0 <= i < terms.len() ==> (#[trigger] terms[i]).wf() && terms[i].weight() <= bits,
    ensures
        strictly_increasing(out.0@),
        forall|t: Term| #[trigger] out.0@.contains(t) <==> is_join_of(t, terms@, terms@),
        forall|t: Term|
            #[trigger] out.1@.contains(t) <==> terms@.contains(t) && !has_partner(t, terms@),
{
    let groups = group_by_weight(bits, terms);
    let mut next: Vec<Term> = Vec::new();
    let mut survivors: Vec<Term> = Vec::new();
    let mut below = cleared_flags(groups[0].len());
    let mut k: usize = 0;
    while k <= bits
        invariant
            bits <= 32,
            k <= bits + 1,
            grouped(terms@, groups@, bits as nat),
            forall|i: int| 0 <= i < terms.len() ==> (#[trigger] terms[i]).wf(),
            strictly_increasing(next@),
            k <= bits ==> below.len() == groups[k as int].len(),
            k <= bits ==> forall|a: int|
                0 <= a < below.len() ==> #[trigger] below[a] == (k > 0 && has_partner(
                    groups[k as int]@[a],
                    groups[k - 1]@,
                )),
            forall|t: Term|
                #[trigger] next@.contains(t) <==> joined_groups(
                    t,
                    groups@,
                    pairs_done(k as int, bits as int),
                ),
            forall|t: Term|
                #[trigger] survivors@.contains(t) <==> lone_in_groups(
                    t,
                    terms@,
                    groups@,
                    k as int,
                ),
        decreases bits + 1 - k,
    {
        let ghost joined_so_far = next@;
        let ghost lone_so_far = survivors@;
        let group = &groups[k];
        let (above, carried) = if k < bits {
            combine_pair(group, &groups[k + 1], &mut next)
        } else {
            (cleared_flags(group.len()), Vec::new())
        };
        emit_survivors(group, &below, &above, &mut survivors);
        proof {
            assert forall|t: Term| #[trigger] next@.contains(t) <==> joined_groups(
                t,
                groups@,
                pairs_done(k + 1, bits as int),
            ) by {
                assert(joined_so_far.contains(t) <==> joined_groups(t, groups@, k as int));
                if k < bits {
                    lemma_joined_groups_step(t, groups@, k as int);
                }
            }
            assert forall|t: Term| #[trigger] survivors@.contains(t) <==> lone_in_groups(
                t,
                terms@,
                groups@,
                k + 1,
            ) by {
                lemma_lone_step(t, terms@, groups@, k as int);
                assert(lone_so_far.contains(t) <==> lone_in_groups(t, terms@, groups@, k as int));
                if exists|a: int|
                    0 <= a < group.len() && #[trigger] group[a] == t && !below[a] && !above[a] {
                    let a = choose|a: int|
                        0 <= a < group.len() && #[trigger] group[a] == t && !below[a] && !above[a];
                    lemma_partner_in_groups(terms@, groups@, bits as nat, k as int, a);
                    assert(group@.contains(t));
                }
                if !has_partner(t, terms@) && group@.contains(t) {
                    let a = choose|a: int| 0 <= a < group@.len() && group@[a] == t;
                    lemma_partner_in_groups(terms@, groups@, bits as nat, k as int, a);
                    assert(0 <= a < group.len() && group[a] == t && !below[a] && !above[a]);
                }
            }
        }
        below = carried;
        k += 1;
    }
    proof {
        assert forall|t: Term| #[trigger] next@.contains(t) <==> is_join_of(t, terms@, terms@) by {
            lemma_joins_in_groups(terms@, groups@, bits as nat, t);
        }
        assert forall|t: Term|
            #[trigger] survivors@.contains(t) <==> terms@.contains(t) && !has_partner(
                t,
                terms@,
            ) by {
            if lone_in_groups(t, terms@, groups@, bits + 1) {
                let g = choose|g: int| 0 <= g < bits + 1 && (#[trigger] groups@[g])@.contains(t);
                let a = choose|a: int| 0 <= a < groups@[g]@.len() && groups@[g]@[a] == t;
                assert(terms@.contains(groups@[g]@[a]));
            }
            if terms@.contains(t) && !has_partner(t, terms@) {
                let i = choose|i: int| 0 <= i < terms@.len() && terms@[i] == t;
                let g = terms@[i].weight() as int;
                assert(groups@[g]@.contains(t));
            }
        }
    }
    (next, survivors)
}

} // verus!
