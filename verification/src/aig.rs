//! The shared acyclic term graph: AND/NOT normal form over primary inputs,
//! with structural evaluation and exhaustive truth-table enumeration.

use vstd::prelude::*;
use crate::Error;
use crate::qmc::{Imp, Tri, pow2, bit_of, minterm_of, assign_of, term_to_imp, lemma_pow2_pos};

verus! {

/// The practical bound on exhaustive enumeration: beyond this many
/// primary inputs the truth table is not enumerated.
pub const MAX_INPUTS: usize = 24;

/// A terminal node: a primary input, identified by its position among the
/// declared inputs.
#[derive(Debug)]
pub struct Sym(pub usize);

/// The logical complement of another node.
#[derive(Debug)]
pub struct Inv(pub Box<AIG>);

/// The conjunction of two nodes.
#[derive(Debug)]
pub struct And(pub Box<AIG>, pub Box<AIG>);

/// A node of the term graph. A node is never mutated after construction;
/// negation wraps a node in a fresh `Inv` rather than flagging an edge.
#[derive(Debug)]
pub enum AIG {
    A(And),
    I(Inv),
    G(Sym),
}

impl Clone for Sym {
    fn clone(&self) -> (r: Self)
        ensures
            r == *self,
    {
        Sym(self.0)
    }
}

impl Clone for AIG {
    fn clone(&self) -> (r: Self)
        ensures
            r == *self,
        decreases *self,
    {
        match self {
            AIG::A(And(l, r)) => AIG::A(And(Box::new((**l).clone()), Box::new((**r).clone()))),
            AIG::I(Inv(c)) => AIG::I(Inv(Box::new((**c).clone()))),
            AIG::G(Sym(i)) => AIG::G(Sym(*i)),
        }
    }
}

impl Clone for Inv {
    fn clone(&self) -> (r: Self)
        ensures
            r == *self,
    {
        Inv(Box::new((*self.0).clone()))
    }
}

impl Clone for And {
    fn clone(&self) -> (r: Self)
        ensures
            r == *self,
    {
        And(Box::new((*self.0).clone()), Box::new((*self.1).clone()))
    }
}

impl AIG {
    /// The value of the node under an assignment of the primary inputs:
    /// a terminal reads its input, negation complements, conjunction
    /// takes the logical AND of its children.
    pub open spec fn eval_spec(self, syms: Seq<bool>) -> bool
        decreases self,
    {
        match self {
            AIG::A(And(l, r)) => l.eval_spec(syms) && r.eval_spec(syms),
            AIG::I(Inv(c)) => !c.eval_spec(syms),
            AIG::G(Sym(i)) => syms[i as int],
        }
    }

    /// How many primary inputs the node can read: one past the largest
    /// terminal index occurring in it.
    pub open spec fn sym_bound(self) -> nat
        decreases self,
    {
        match self {
            AIG::A(And(l, r)) => {
                let lb = l.sym_bound();
                let rb = r.sym_bound();
                if lb <= rb {
                    rb
                } else {
                    lb
                }
            },
            AIG::I(Inv(c)) => c.sym_bound(),
            AIG::G(Sym(i)) => i as nat + 1,
        }
    }

    /// The node, complemented when `neg` is set; the stored node is never
    /// mutated, a fresh negation wrapper is created instead.
    pub fn neg(&self, neg: bool) -> (r: Box<Self>)
        ensures
            neg ==> (*r matches AIG::I(Inv(c)) && *c == *self),
            !neg ==> *r == *self,
    {
        if neg {
            Box::new(AIG::I(Inv(Box::new(self.clone()))))
        } else {
            Box::new(self.clone())
        }
    }

    /// Evaluate the node under one assignment, one boolean per primary
    /// input. Total: the same node and assignment always yield the same
    /// boolean, namely `eval_spec`.
    pub fn eval(&self, syms: &[bool]) -> (r: bool)
        requires
            self.sym_bound() <= syms@.len(),
        ensures
            r == self.eval_spec(syms@),
        decreases *self,
    {
        match self {
            AIG::A(And(l, r)) => l.eval(syms) && r.eval(syms),
            AIG::I(Inv(c)) => !c.eval(syms),
            AIG::G(Sym(i)) => syms[*i],
        }
    }

    /// The number of primary inputs the node reads, `sym_bound`.
    pub fn syms(&self) -> (r: usize)
        requires
            self.sym_bound() <= usize::MAX,
        ensures
            r == self.sym_bound(),
        decreases *self,
    {
        match self {
            AIG::A(And(l, r)) => {
                let a = l.syms();
                let b = r.syms();
                if a <= b {
                    b
                } else {
                    a
                }
            },
            AIG::I(Inv(c)) => c.syms(),
            AIG::G(Sym(i)) => *i + 1,
        }
    }
}


/// The vectors held by a list of implicants, in order.
pub open spec fn views(v: Seq<Imp>) -> Seq<Seq<Tri>> {
    v.map_values(|m: Imp| m@)
}

proof fn lemma_views_push(v: Seq<Imp>, x: Imp)
    ensures
        views(v.push(x)) == views(v).push(x@),
{
    assert(views(v.push(x)) =~= views(v).push(x@));
}

/// The on-set rows of the node among the first `t` assignments: those
/// whose evaluation is true, in assignment order.
pub open spec fn on_seq(node: AIG, n: nat, t: nat) -> Seq<Seq<Tri>>
    decreases t,
{
    if t == 0 {
        Seq::empty()
    } else {
        on_seq(node, n, (t - 1) as nat) + if node.eval_spec(assign_of((t - 1) as nat, n)) {
            seq![minterm_of((t - 1) as nat, n)]
        } else {
            Seq::empty()
        }
    }
}

/// The off-set rows of the node among the first `t` assignments.
pub open spec fn off_seq(node: AIG, n: nat, t: nat) -> Seq<Seq<Tri>>
    decreases t,
{
    if t == 0 {
        Seq::empty()
    } else {
        off_seq(node, n, (t - 1) as nat) + if node.eval_spec(assign_of((t - 1) as nat, n)) {
            Seq::empty()
        } else {
            seq![minterm_of((t - 1) as nat, n)]
        }
    }
}

/// Powers of two are monotone.
proof fn lemma_pow2_le(a: nat, b: nat)
    requires
        a <= b,
    ensures
        pow2(a) <= pow2(b),
    decreases b,
{
    if a < b {
        lemma_pow2_le(a, (b - 1) as nat);
        lemma_pow2_pos((b - 1) as nat);
    }
}

/// Build the boolean assignment of one assignment number by peeling off
/// bits.
fn term_to_assign(term: usize, n: usize) -> (r: Vec<bool>)
    ensures
        r@ == assign_of(term as nat, n as nat),
{
    let mut v: Vec<bool> = Vec::new();
    let mut rem = term;
    let mut i: usize = 0;
    proof {
        assert(pow2(0) == 1);
    }
    while i < n
        invariant
            i <= n,
            v@.len() == i,
            rem == term as nat / pow2(i as nat),
            forall|j: int| 0 <= j < i ==> v@[j] == bit_of(term as nat, j as nat),
        decreases n - i,
    {
        v.push(rem % 2 == 1);
        proof {
            lemma_pow2_pos(i as nat);
            vstd::arithmetic::div_mod::lemma_div_denominator(
                term as int,
                pow2(i as nat) as int,
                2,
            );
            assert(pow2(i as nat + 1) == 2 * pow2(i as nat));
        }
        rem = rem / 2;
        i = i + 1;
    }
    proof {
        assert(v@ =~= assign_of(term as nat, n as nat));
    }
    v
}

/// Exhaustively evaluate the node over every one of the 2^n assignments,
/// in binary counting order with input 0 as the least-significant bit,
/// and classify each row into the on-set or the off-set. Fails exactly
/// when the input count exceeds the enumeration bound, before any
/// evaluation work.
pub fn enumerate(node: &AIG, inputs: usize) -> (r: Result<(Vec<Imp>, Vec<Imp>), Error>)
    requires
        node.sym_bound() <= inputs,
    ensures
        r is Ok <==> inputs <= MAX_INPUTS,
        r matches Err(e) ==> e is TooManyInputs,
        r matches Ok(p) ==> views(p.0@) == on_seq(*node, inputs as nat, pow2(inputs as nat))
            && views(p.1@) == off_seq(*node, inputs as nat, pow2(inputs as nat)),
{
    if inputs > MAX_INPUTS {
        return Err(Error::TooManyInputs);
    }
    let mut total: usize = 1;
    let mut i: usize = 0;
    proof {
        assert(pow2(24) == 16777216) by {
            reveal_with_fuel(pow2, 26);
        }
    }
    while i < inputs
        invariant
            i <= inputs,
            inputs <= 24,
            total == pow2(i as nat),
            pow2(24) == 16777216,
        decreases inputs - i,
    {
        proof {
            lemma_pow2_le(i as nat + 1, 24);
        }
        total = total * 2;
        i = i + 1;
    }
    let mut on: Vec<Imp> = Vec::new();
    let mut off: Vec<Imp> = Vec::new();
    let mut t: usize = 0;
    proof {
        assert(views(on@) =~= on_seq(*node, inputs as nat, 0));
        assert(views(off@) =~= off_seq(*node, inputs as nat, 0));
    }
    while t < total
        invariant
            t <= total,
            total == pow2(inputs as nat),
            node.sym_bound() <= inputs,
            views(on@) == on_seq(*node, inputs as nat, t as nat),
            views(off@) == off_seq(*node, inputs as nat, t as nat),
        decreases total - t,
    {
        let assign = term_to_assign(t, inputs);
        let imp = term_to_imp(t, inputs);
        let ghost on0 = on@;
        let ghost off0 = off@;
        if node.eval(&assign) {
            on.push(imp);
            proof {
                lemma_views_push(on0, on@[on@.len() - 1]);
                assert(views(on@) =~= on_seq(*node, inputs as nat, t as nat + 1));
                assert(views(off@) =~= off_seq(*node, inputs as nat, t as nat + 1));
            }
        } else {
            off.push(imp);
            proof {
                lemma_views_push(off0, off@[off@.len() - 1]);
                assert(views(on@) =~= on_seq(*node, inputs as nat, t as nat + 1));
                assert(views(off@) =~= off_seq(*node, inputs as nat, t as nat + 1));
            }
        }
        t = t + 1;
    }
    Ok((on, off))
}


/// `s` is the truth-table row of some assignment number below `bound`.
pub open spec fn row_of(s: Seq<Tri>, n: nat, bound: nat) -> bool {
    exists|t: nat| #![auto] t < bound && s == minterm_of(t, n)
}

/// Distinct assignment numbers below 2^n differ in some bit below `n`.
proof fn lemma_bits_differ(t1: nat, t2: nat, n: nat)
    requires
        t1 < pow2(n),
        t2 < pow2(n),
        t1 != t2,
    ensures
        exists|i: nat| #![auto] i < n && bit_of(t1, i) != bit_of(t2, i),
    decreases n,
{
    assert(pow2(0) == 1);
    if bit_of(t1, 0) != bit_of(t2, 0) {
        assert(0 < n) by {
            if n == 0 {
                assert(t1 == 0 && t2 == 0);
            }
        }
        assert(exists|i: nat| #![auto] i < n && bit_of(t1, i) != bit_of(t2, i));
    } else {
        assert(n > 0) by {
            if n == 0 {
                assert(t1 == 0 && t2 == 0);
            }
        }
        let h1 = t1 / 2;
        let h2 = t2 / 2;
        assert(t1 % 2 == t2 % 2) by {
            assert(bit_of(t1, 0) == (t1 % 2 == 1));
            assert(bit_of(t2, 0) == (t2 % 2 == 1));
            assert(t1 % 2 < 2 && t2 % 2 < 2);
        }
        assert(h1 != h2) by {
            assert(t1 == 2 * h1 + t1 % 2);
            assert(t2 == 2 * h2 + t2 % 2);
        }
        assert(h1 < pow2((n - 1) as nat) && h2 < pow2((n - 1) as nat)) by {
            assert(pow2(n) == 2 * pow2((n - 1) as nat));
        }
        lemma_bits_differ(h1, h2, (n - 1) as nat);
        let i = choose|i: nat| #![auto] i < (n - 1) as nat && bit_of(h1, i) != bit_of(h2, i);
        assert(bit_of(t1, i + 1) == bit_of(h1, i) && bit_of(t2, i + 1) == bit_of(h2, i)) by {
            lemma_pow2_pos(i);
            vstd::arithmetic::div_mod::lemma_div_denominator(t1 as int, 2, pow2(i) as int);
            vstd::arithmetic::div_mod::lemma_div_denominator(t2 as int, 2, pow2(i) as int);
            assert(pow2(i + 1) == 2 * pow2(i));
            assert(t1 / pow2(i + 1) == (t1 / 2) / pow2(i));
            assert(t2 / pow2(i + 1) == (t2 / 2) / pow2(i));
        }
        assert(i + 1 < n && bit_of(t1, i + 1) != bit_of(t2, i + 1));
    }
}

/// Distinct assignment numbers below 2^n name distinct truth-table rows.
proof fn lemma_minterm_injective(t1: nat, t2: nat, n: nat)
    requires
        t1 < pow2(n),
        t2 < pow2(n),
        t1 != t2,
    ensures
        minterm_of(t1, n) != minterm_of(t2, n),
{
    lemma_bits_differ(t1, t2, n);
    let i = choose|i: nat| #![auto] i < n && bit_of(t1, i) != bit_of(t2, i);
    assert(minterm_of(t1, n)[i as int] != minterm_of(t2, n)[i as int]);
}

/// Membership of the partial on-set: exactly the rows of the true
/// assignments seen so far.
proof fn lemma_on_seq_members(node: AIG, n: nat, bound: nat, s: Seq<Tri>)
    ensures
        on_seq(node, n, bound).contains(s) <==> exists|t: nat|
            #![auto]
            t < bound && s == minterm_of(t, n) && node.eval_spec(assign_of(t, n)),
    decreases bound,
{
    if bound > 0 {
        let b1 = (bound - 1) as nat;
        lemma_on_seq_members(node, n, b1, s);
        let prev = on_seq(node, n, b1);
        let whole = on_seq(node, n, bound);
        if node.eval_spec(assign_of(b1, n)) {
            assert(whole =~= prev.push(minterm_of(b1, n)));
            if whole.contains(s) {
                let k = choose|k: int| 0 <= k < whole.len() && whole[k] == s;
                if k < prev.len() {
                    assert(prev.contains(s));
                } else {
                    assert(s == minterm_of(b1, n));
                }
            }
            if exists|t: nat|
                #![auto]
                t < bound && s == minterm_of(t, n) && node.eval_spec(assign_of(t, n)) {
                let t = choose|t: nat|
                    #![auto]
                    t < bound && s == minterm_of(t, n) && node.eval_spec(assign_of(t, n));
                if t < b1 {
                    assert(prev.contains(s));
                    let k = choose|k: int| 0 <= k < prev.len() && prev[k] == s;
                    assert(whole[k] == s);
                } else {
                    assert(whole[whole.len() - 1] == s);
                }
            }
        } else {
            assert(whole =~= prev);
            if whole.contains(s) {
                let k = choose|k: int| 0 <= k < whole.len() && whole[k] == s;
                assert(prev[k] == s);
            }
            if exists|t: nat|
                #![auto]
                t < bound && s == minterm_of(t, n) && node.eval_spec(assign_of(t, n)) {
                let t = choose|t: nat|
                    #![auto]
                    t < bound && s == minterm_of(t, n) && node.eval_spec(assign_of(t, n));
                assert(t != b1);
                assert(prev.contains(s));
                let k = choose|k: int| 0 <= k < prev.len() && prev[k] == s;
                assert(whole[k] == s);
            }
        }
    }
}

/// Membership of the partial off-set: exactly the rows of the false
/// assignments seen so far.
proof fn lemma_off_seq_members(node: AIG, n: nat, bound: nat, s: Seq<Tri>)
    ensures
        off_seq(node, n, bound).contains(s) <==> exists|t: nat|
            #![auto]
            t < bound && s == minterm_of(t, n) && !node.eval_spec(assign_of(t, n)),
    decreases bound,
{
    if bound > 0 {
        let b1 = (bound - 1) as nat;
        lemma_off_seq_members(node, n, b1, s);
        let prev = off_seq(node, n, b1);
        let whole = off_seq(node, n, bound);
        if !node.eval_spec(assign_of(b1, n)) {
            assert(whole =~= prev.push(minterm_of(b1, n)));
            if whole.contains(s) {
                let k = choose|k: int| 0 <= k < whole.len() && whole[k] == s;
                if k < prev.len() {
                    assert(prev.contains(s));
                } else {
                    assert(s == minterm_of(b1, n));
                }
            }
            if exists|t: nat|
                #![auto]
                t < bound && s == minterm_of(t, n) && !node.eval_spec(assign_of(t, n)) {
                let t = choose|t: nat|
                    #![auto]
                    t < bound && s == minterm_of(t, n) && !node.eval_spec(assign_of(t, n));
                if t < b1 {
                    assert(prev.contains(s));
                    let k = choose|k: int| 0 <= k < prev.len() && prev[k] == s;
                    assert(whole[k] == s);
                } else {
                    assert(whole[whole.len() - 1] == s);
                }
            }
        } else {
            assert(whole =~= prev);
            if whole.contains(s) {
                let k = choose|k: int| 0 <= k < whole.len() && whole[k] == s;
                assert(prev[k] == s);
            }
            if exists|t: nat|
                #![auto]
                t < bound && s == minterm_of(t, n) && !node.eval_spec(assign_of(t, n)) {
                let t = choose|t: nat|
                    #![auto]
                    t < bound && s == minterm_of(t, n) && !node.eval_spec(assign_of(t, n));
                assert(t != b1);
                assert(prev.contains(s));
                let k = choose|k: int| 0 <= k < prev.len() && prev[k] == s;
                assert(whole[k] == s);
            }
        }
    }
}

/// The partition law of exhaustive enumeration: over the full assignment
/// space, each truth-table row appears in the on-set exactly when the
/// node evaluates true on it and in the off-set exactly when it
/// evaluates false; every member names an assignment; and neither list
/// repeats a row. Together: the union of on-set and off-set is the full
/// 2^n assignment space, each row exactly once.
pub proof fn lemma_on_off_partition(node: AIG, n: nat)
    ensures
        forall|t: nat|
            t < pow2(n) ==> (#[trigger] on_seq(node, n, pow2(n)).contains(minterm_of(t, n))
                == node.eval_spec(assign_of(t, n))),
        forall|t: nat|
            t < pow2(n) ==> (#[trigger] off_seq(node, n, pow2(n)).contains(minterm_of(t, n))
                == !node.eval_spec(assign_of(t, n))),
        forall|s: Seq<Tri>|
            #[trigger] on_seq(node, n, pow2(n)).contains(s) ==> row_of(s, n, pow2(n)),
        forall|s: Seq<Tri>|
            #[trigger] off_seq(node, n, pow2(n)).contains(s) ==> row_of(s, n, pow2(n)),
        forall|i: int, j: int|
            0 <= i < j < on_seq(node, n, pow2(n)).len() ==> #[trigger] on_seq(node, n, pow2(n))[i]
                != #[trigger] on_seq(node, n, pow2(n))[j],
        forall|i: int, j: int|
            0 <= i < j < off_seq(node, n, pow2(n)).len() ==> #[trigger] off_seq(node, n, pow2(n))[i]
                != #[trigger] off_seq(node, n, pow2(n))[j],
{
    let on = on_seq(node, n, pow2(n));
    let off = off_seq(node, n, pow2(n));
    assert forall|t: nat| t < pow2(n) implies (#[trigger] on.contains(minterm_of(t, n))
        == node.eval_spec(assign_of(t, n))) by {
        lemma_on_seq_members(node, n, pow2(n), minterm_of(t, n));
        if on.contains(minterm_of(t, n)) {
            let t2 = choose|t2: nat|
                #![auto]
                t2 < pow2(n) && minterm_of(t, n) == minterm_of(t2, n) && node.eval_spec(
                    assign_of(t2, n),
                );
            if t2 != t {
                lemma_minterm_injective(t, t2, n);
            }
        }
    }
    assert forall|t: nat| t < pow2(n) implies (#[trigger] off.contains(minterm_of(t, n))
        == !node.eval_spec(assign_of(t, n))) by {
        lemma_off_seq_members(node, n, pow2(n), minterm_of(t, n));
        if off.contains(minterm_of(t, n)) {
            let t2 = choose|t2: nat|
                #![auto]
                t2 < pow2(n) && minterm_of(t, n) == minterm_of(t2, n) && !node.eval_spec(
                    assign_of(t2, n),
                );
            if t2 != t {
                lemma_minterm_injective(t, t2, n);
            }
        }
    }
    assert forall|s: Seq<Tri>| #[trigger] on.contains(s) implies row_of(s, n, pow2(n)) by {
        lemma_on_seq_members(node, n, pow2(n), s);
    }
    assert forall|s: Seq<Tri>| #[trigger] off.contains(s) implies row_of(s, n, pow2(n)) by {
        lemma_off_seq_members(node, n, pow2(n), s);
    }
    lemma_on_distinct(node, n, pow2(n));
    lemma_off_distinct(node, n, pow2(n));
}

/// The partial on-set never repeats a row.
proof fn lemma_on_distinct(node: AIG, n: nat, bound: nat)
    requires
        bound <= pow2(n),
    ensures
        forall|i: int, j: int|
            0 <= i < j < on_seq(node, n, bound).len() ==> #[trigger] on_seq(node, n, bound)[i]
                != #[trigger] on_seq(node, n, bound)[j],
        forall|i: int|
            0 <= i < on_seq(node, n, bound).len() ==> row_of(
                #[trigger] on_seq(node, n, bound)[i],
                n,
                bound,
            ),
    decreases bound,
{
    if bound > 0 {
        let b1 = (bound - 1) as nat;
        lemma_on_distinct(node, n, b1);
        let prev = on_seq(node, n, b1);
        let whole = on_seq(node, n, bound);
        if node.eval_spec(assign_of(b1, n)) {
            assert(whole =~= prev.push(minterm_of(b1, n)));
            assert forall|i: int, j: int|
                0 <= i < j < whole.len() implies #[trigger] whole[i] != #[trigger] whole[j] by {
                if j == whole.len() - 1 {
                    assert(row_of(prev[i], n, b1));
                    let t = choose|t: nat| #![auto] t < b1 && prev[i] == minterm_of(t, n);
                    lemma_minterm_injective(t, b1, n);
                } else {
                    assert(prev[i] != prev[j]);
                }
            }
            assert forall|i: int| 0 <= i < whole.len() implies row_of(
                #[trigger] whole[i],
                n,
                bound,
            ) by {
                if i < prev.len() {
                    assert(row_of(prev[i], n, b1));
                    let t = choose|t: nat| #![auto] t < b1 && prev[i] == minterm_of(t, n);
                    assert(t < bound && whole[i] == minterm_of(t, n));
                } else {
                    assert(b1 < bound && whole[i] == minterm_of(b1, n));
                }
            }
        } else {
            assert(whole =~= prev);
            assert forall|i: int| 0 <= i < whole.len() implies row_of(
                #[trigger] whole[i],
                n,
                bound,
            ) by {
                assert(row_of(prev[i], n, b1));
                let t = choose|t: nat| #![auto] t < b1 && prev[i] == minterm_of(t, n);
                assert(t < bound && whole[i] == minterm_of(t, n));
            }
        }
    }
}

/// The partial off-set never repeats a row.
proof fn lemma_off_distinct(node: AIG, n: nat, bound: nat)
    requires
        bound <= pow2(n),
    ensures
        forall|i: int, j: int|
            0 <= i < j < off_seq(node, n, bound).len() ==> #[trigger] off_seq(node, n, bound)[i]
                != #[trigger] off_seq(node, n, bound)[j],
        forall|i: int|
            0 <= i < off_seq(node, n, bound).len() ==> row_of(
                #[trigger] off_seq(node, n, bound)[i],
                n,
                bound,
            ),
    decreases bound,
{
    if bound > 0 {
        let b1 = (bound - 1) as nat;
        lemma_off_distinct(node, n, b1);
        let prev = off_seq(node, n, b1);
        let whole = off_seq(node, n, bound);
        if !node.eval_spec(assign_of(b1, n)) {
            assert(whole =~= prev.push(minterm_of(b1, n)));
            assert forall|i: int, j: int|
                0 <= i < j < whole.len() implies #[trigger] whole[i] != #[trigger] whole[j] by {
                if j == whole.len() - 1 {
                    assert(row_of(prev[i], n, b1));
                    let t = choose|t: nat| #![auto] t < b1 && prev[i] == minterm_of(t, n);
                    lemma_minterm_injective(t, b1, n);
                } else {
                    assert(prev[i] != prev[j]);
                }
            }
            assert forall|i: int| 0 <= i < whole.len() implies row_of(
                #[trigger] whole[i],
                n,
                bound,
            ) by {
                if i < prev.len() {
                    assert(row_of(prev[i], n, b1));
                    let t = choose|t: nat| #![auto] t < b1 && prev[i] == minterm_of(t, n);
                    assert(t < bound && whole[i] == minterm_of(t, n));
                } else {
                    assert(b1 < bound && whole[i] == minterm_of(b1, n));
                }
            }
        } else {
            assert(whole =~= prev);
            assert forall|i: int| 0 <= i < whole.len() implies row_of(
                #[trigger] whole[i],
                n,
                bound,
            ) by {
                assert(row_of(prev[i], n, b1));
                let t = choose|t: nat| #![auto] t < b1 && prev[i] == minterm_of(t, n);
                assert(t < bound && whole[i] == minterm_of(t, n));
            }
        }
    }
}

} // verus!
