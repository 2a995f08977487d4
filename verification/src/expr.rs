use crate::bits::{lemma_low_mask_step, lemma_zero_mask, low_mask};
use crate::term::Term;
use vstd::prelude::*;

verus! {

/// A Boolean formula over the variables `0, 1, 2, ..`: the mathematical
/// value that a `Node` stands for.
pub enum Formula {
    False,
    And(Seq<Formula>),
    Or(Seq<Formula>),
    Not(Box<Formula>),
    Var(u8),
}

/// Whether variable `i` is true under the assignment `m`: bit `i` of `m`.
pub open spec fn var_bit(m: u32, i: u8) -> bool {
    i < 32 && (m >> (i as u32)) & 1 == 1
}

impl Formula {
    /// The truth value of the formula under the assignment `m`.
    pub open spec fn eval(self, m: u32) -> bool
        decreases self,
    {
        match self {
            Formula::False => false,
            Formula::And(cs) => forall|i: int| 0 <= i < cs.len() ==> (#[trigger] cs[i]).eval(m),
            Formula::Or(cs) => exists|i: int| 0 <= i < cs.len() && (#[trigger] cs[i]).eval(m),
            Formula::Not(c) => !c.eval(m),
            Formula::Var(i) => var_bit(m, i),
        }
    }
}

/// A conjunction is true exactly when all its parts are.
pub proof fn lemma_eval_and(cs: Seq<Formula>, m: u32)
    ensures
        Formula::And(cs).eval(m) == (forall|i: int| 0 <= i < cs.len() ==> (#[trigger] cs[i]).eval(m)),
{
    assert(Formula::And(cs)->And_0 == cs);
}

/// A disjunction is true exactly when one of its parts is.
pub proof fn lemma_eval_or(cs: Seq<Formula>, m: u32)
    ensures
        Formula::Or(cs).eval(m) == (exists|i: int| 0 <= i < cs.len() && (#[trigger] cs[i]).eval(m)),
{
    assert(Formula::Or(cs)->Or_0 == cs);
}

/// A Boolean expression tree.
#[derive(Debug, PartialEq, Eq)]
pub enum Node {
    /// The constant false: the expression of a function that is true nowhere.
    Empty,
    /// True when every child is; with no child, the constant true.
    And(Vec<Node>),
    /// True when some child is.
    Or(Vec<Node>),
    /// True when the child is not.
    Not(Box<Node>),
    /// The input variable with this index, counted from zero.
    Var(u8),
}

impl View for Node {
    type V = Formula;

    /// The formula that the tree stands for.
    open spec fn view(&self) -> Formula {
        self.formula()
    }
}

impl Node {
    /// The formula that the tree stands for.
    pub open spec fn formula(&self) -> Formula
        decreases self,
    {
        match self {
            Node::Empty => Formula::False,
            Node::And(cs) => Formula::And(
                Seq::new(
                    cs.len() as nat,
                    |i: int|
                        if 0 <= i < cs.len() {
                            cs[i].formula()
                        } else {
                            Formula::False
                        },
                ),
            ),
            Node::Or(cs) => Formula::Or(
                Seq::new(
                    cs.len() as nat,
                    |i: int|
                        if 0 <= i < cs.len() {
                            cs[i].formula()
                        } else {
                            Formula::False
                        },
                ),
            ),
            Node::Not(c) => Formula::Not(Box::new(c.formula())),
            Node::Var(i) => Formula::Var(*i),
        }
    }

    /// The truth value of the expression under the assignment `m`.
    #[verifier::loop_isolation(false)]
    pub fn eval(&self, m: u32) -> (r: bool)
        ensures
            r == self@.eval(m),
        decreases self,
    {
        broadcast use vstd::std_specs::vec::axiom_vec_index_decreases;

        match self {
            Node::Empty => false,
            Node::And(cs) => {
                let ghost fs = self@->And_0;
                let mut i: usize = 0;
                while i < cs.len()
                    invariant
                        i <= cs.len(),
                        forall|j: int| 0 <= j < i ==> (#[trigger] fs[j]).eval(m),
                    decreases cs.len() - i,
                {
                    assert(fs[i as int] == cs[i as int]@);
                    if !cs[i].eval(m) {
                        return false;
                    }
                    i += 1;
                }
                true
            },
            Node::Or(cs) => {
                let ghost fs = self@->Or_0;
                let mut i: usize = 0;
                while i < cs.len()
                    invariant
                        i <= cs.len(),
                        forall|j: int| 0 <= j < i ==> !(#[trigger] fs[j]).eval(m),
                    decreases cs.len() - i,
                {
                    assert(fs[i as int] == cs[i as int]@);
                    if cs[i].eval(m) {
                        return true;
                    }
                    i += 1;
                }
                false
            },
            Node::Not(c) => !c.eval(m),
            Node::Var(i) => *i < 32 && (m >> (*i as u32)) & 1 == 1,
        }
    }
}

/// The literal of position `i` in the term: the variable where the term
/// asserts a one, its negation where it asserts a zero.
pub open spec fn literal(t: Term, i: u8) -> Formula {
    if var_bit(t.value(), i) {
        Formula::Var(i)
    } else {
        Formula::Not(Box::new(Formula::Var(i)))
    }
}

/// The literals of the specified positions among the first `n`, lowest first.
pub open spec fn literals(t: Term, n: nat) -> Seq<Formula>
    decreases n,
{
    if n == 0 {
        Seq::empty()
    } else {
        let rest = literals(t, (n - 1) as nat);
        if var_bit(t.mask(), (n - 1) as u8) {
            rest
        } else {
            rest.push(literal(t, (n - 1) as u8))
        }
    }
}

/// The conjunction that a term stands for over `bits` variables. A single
/// literal stands alone; a term without literals gives the empty
/// conjunction, which is the constant true.
pub open spec fn conjunction(t: Term, bits: nat) -> Formula {
    let ls = literals(t, bits);
    if ls.len() == 1 {
        ls[0]
    } else {
        Formula::And(ls)
    }
}

/// The disjunction that a cover stands for over `bits` variables. A single
/// term stands alone; no term at all gives the constant false.
pub open spec fn disjunction(cover: Seq<Term>, bits: nat) -> Formula {
    if cover.len() == 0 {
        Formula::False
    } else if cover.len() == 1 {
        conjunction(cover[0], bits)
    } else {
        Formula::Or(Seq::new(cover.len(), |j: int| conjunction(cover[j], bits)))
    }
}

/// The assignment agrees with the term on the specified positions among
/// the first `n`.
pub open spec fn agrees(t: Term, m: u32, n: nat) -> bool {
    (m ^ t.value()) & !t.mask() & low_mask(n) == 0
}

/// The literals of a term hold together exactly under the assignments
/// that agree with the term.
pub proof fn lemma_literals_eval(t: Term, n: nat, m: u32)
    requires
        n <= 32,
    ensures
        Formula::And(literals(t, n)).eval(m) == agrees(t, m, n),
        literals(t, n).len() <= n,
    decreases n,
{
    let v = t.value();
    let k = t.mask();
    if n == 0 {
        lemma_low_mask_step(0);
        lemma_zero_mask((m ^ v) & !k, 0);
        lemma_eval_and(literals(t, 0), m);
    } else {
        let p = (n - 1) as nat;
        let pb = p as u32;
        let rest = literals(t, p);
        lemma_literals_eval(t, p, m);
        let lo = low_mask(p);
        let hi = low_mask(n);
        lemma_low_mask_step(p);
        assert(hi == lo | (1u32 << pb));
        let mb = (m >> pb) & 1 == 1;
        let vb = (v >> pb) & 1 == 1;
        let kb = (k >> pb) & 1 == 1;
        assert(pb < 32 ==> (((m ^ v) & !k & (lo | (1u32 << pb)) == 0) <==> ((m ^ v) & !k & lo == 0
            && (((k >> pb) & 1 == 1) || (((m >> pb) & 1 == 1) <==> ((v >> pb) & 1 == 1)))))) by (bit_vector);
        assert(agrees(t, m, n) == (agrees(t, m, p) && (kb || (mb == vb))));
        assert(var_bit(k, p as u8) == kb);
        assert(var_bit(v, p as u8) == vb);
        assert(var_bit(m, p as u8) == mb);
        if !kb {
            let l = literal(t, p as u8);
            let ls = rest.push(l);
            assert(literals(t, n) == ls);
            assert(l.eval(m) == (mb == vb)) by {
                reveal_with_fuel(Formula::eval, 2);
            }
            lemma_eval_and(ls, m);
            lemma_eval_and(rest, m);
            if Formula::And(ls).eval(m) {
                assert forall|i: int| 0 <= i < rest.len() implies (#[trigger] rest[i]).eval(m) by {
                    assert(ls[i] == rest[i]);
                }
                assert(ls[rest.len() as int] == l);
            }
            if Formula::And(rest).eval(m) && l.eval(m) {
                assert forall|i: int| 0 <= i < ls.len() implies (#[trigger] ls[i]).eval(m) by {
                    if i < rest.len() {
                        assert(ls[i] == rest[i]);
                    }
                }
            }
        }
    }
}

/// A term over `bits` variables, as a formula, is true exactly under the
/// assignments that it covers.
pub proof fn lemma_conjunction_eval(t: Term, bits: nat, m: u32)
    requires
        bits <= 32,
        t.wf(),
        t.value() | t.mask() <= low_mask(bits),
        m <= low_mask(bits),
    ensures
        conjunction(t, bits).eval(m) == t.covers(m),
{
    lemma_literals_eval(t, bits, m);
    let ls = literals(t, bits);
    lemma_eval_and(ls, m);
    let v = t.value();
    let k = t.mask();
    let low = low_mask(bits);
    if bits < 32 {
        let b = bits as u32;
        assert(b < 32 && v & k == 0 && (v | k) <= ((1u32 << b) - 1) as u32 && m <= ((1u32 << b)
            - 1) as u32 ==> (((m ^ v) & !k & (((1u32 << b) - 1) as u32) == 0) <==> m & !k == v))
            by (bit_vector);
    } else {
        assert(v & k == 0 ==> (((m ^ v) & !k & 0xffff_ffffu32 == 0) <==> m & !k == v))
            by (bit_vector);
    }
}

/// A cover over `bits` variables, as a formula, is true exactly under the
/// assignments that one of its terms covers.
pub proof fn lemma_disjunction_eval(cover: Seq<Term>, bits: nat, m: u32)
    requires
        bits <= 32,
        forall|j: int|
            0 <= j < cover.len() ==> (#[trigger] cover[j]).wf() && cover[j].value()
                | cover[j].mask() <= low_mask(bits),
        m <= low_mask(bits),
    ensures
        disjunction(cover, bits).eval(m) == exists|j: int|
            0 <= j < cover.len() && (#[trigger] cover[j]).covers(m),
{
    let f = disjunction(cover, bits);
    if cover.len() == 1 {
        lemma_conjunction_eval(cover[0], bits, m);
        if cover[0].covers(m) {
            assert(0 <= 0 < cover.len() && cover[0].covers(m));
        }
    } else if cover.len() > 1 {
        let cs = Seq::new(cover.len(), |j: int| conjunction(cover[j], bits));
        lemma_eval_or(cs, m);
        if f.eval(m) {
            let j = choose|j: int| 0 <= j < cs.len() && (#[trigger] cs[j]).eval(m);
            lemma_conjunction_eval(cover[j], bits, m);
            assert(cover[j].covers(m));
        }
        if exists|j: int| 0 <= j < cover.len() && (#[trigger] cover[j]).covers(m) {
            let j = choose|j: int| 0 <= j < cover.len() && (#[trigger] cover[j]).covers(m);
            lemma_conjunction_eval(cover[j], bits, m);
            assert(cs[j].eval(m));
        }
    }
}

/// The expression of one term: the conjunction of its literals.
pub fn build_conjunction(bits: usize, t: Term) -> (node: Node)
    requires
        bits <= 32,
    ensures
        node@ == conjunction(t, bits as nat),
{
    let value = t.lower();
    let mask = t.upper();
    let mut lits: Vec<Node> = Vec::new();
    let mut i: usize = 0;
    while i < bits
        invariant
            bits <= 32,
            i <= bits,
            value == t.value(),
            mask == t.mask(),
            lits.len() == literals(t, i as nat).len(),
            forall|j: int| 0 <= j < lits.len() ==> (#[trigger] lits[j])@ == literals(t, i as nat)[j],
        decreases bits - i,
    {
        let pos = i as u32;
        proof {
            reveal_with_fuel(Node::formula, 2);
        }
        assert(((mask >> pos) & 1 == 0) <==> !((mask >> pos) & 1 == 1)) by (bit_vector);
        if (mask >> pos) & 1 == 0 {
            if (value >> pos) & 1 == 1 {
                lits.push(Node::Var(i as u8));
            } else {
                lits.push(Node::Not(Box::new(Node::Var(i as u8))));
            }
        }
        i += 1;
    }
    if lits.len() == 1 {
        lits.remove(0)
    } else {
        let ghost want = literals(t, bits as nat);
        let node = Node::And(lits);
        assert(node@->And_0 =~= want);
        node
    }
}

/// The expression of a cover: the disjunction of the conjunctions of its terms.
pub fn build_expression(bits: usize, cover: &Vec<Term>) -> (node: Node)
    requires
        bits <= 32,
    ensures
        node@ == disjunction(cover@, bits as nat),
{
    if cover.len() == 0 {
        return Node::Empty;
    }
    if cover.len() == 1 {
        return build_conjunction(bits, cover[0]);
    }
    let mut parts: Vec<Node> = Vec::new();
    let mut j: usize = 0;
    while j < cover.len()
        invariant
            bits <= 32,
            j <= cover.len(),
            parts.len() == j,
            forall|i: int| 0 <= i < j ==> (#[trigger] parts[i])@ == conjunction(cover[i], bits as nat),
        decreases cover.len() - j,
    {
        parts.push(build_conjunction(bits, cover[j]));
        j += 1;
    }
    let ghost want = Seq::new(cover@.len(), |j: int| conjunction(cover@[j], bits as nat));
    let node = Node::Or(parts);
    assert(node@->Or_0 =~= want);
    node
}

} // verus!
