//! Netlist-side data: encoded literals and AND-gate definitions, and the
//! graph builder that resolves an unordered gate list into a term graph.

use vstd::prelude::*;
use crate::Error;
use crate::aig;
use crate::aig::{AIG, Sym, Inv};

verus! {

/// A reference to a circuit signal: the signal identifier together with a
/// polarity flag (`neg` set means the complemented signal).
#[derive(Debug, Clone, Copy)]
pub struct Lit {
    pub var: usize,
    pub neg: bool,
}

impl Lit {
    /// The even/odd literal convention: the identifier is the encoded value
    /// divided by two, the polarity is its low bit.
    pub open spec fn decode(value: u64) -> Lit {
        Lit { var: (value / 2) as usize, neg: value % 2 == 1 }
    }

    /// Decode an even/odd encoded signal reference. Identifiers above the
    /// machine's index range are assumed absent by the caller (a format
    /// concern, not this component's).
    pub fn from(value: u64) -> (r: Lit)
        requires
            value / 2 <= usize::MAX,
        ensures
            r == Lit::decode(value),
    {
        Lit { var: (value / 2) as usize, neg: value % 2 == 1 }
    }
}

/// An AND-gate definition: its output literal and its two operand
/// literals, all under the even/odd encoding of `Lit`.
#[derive(Debug, Clone, Copy)]
pub struct And {
    pub lhs: Lit,
    pub rhs0: Lit,
    pub rhs1: Lit,
}


/// The declared signal identifiers, in declaration order: the primary
/// inputs first, then each gate's output.
pub open spec fn defs(inputs: Seq<usize>, gates: Seq<And>) -> Seq<usize> {
    inputs + gates.map_values(|g: And| g.lhs.var)
}

/// Single definition per signal: no identifier is declared twice, as
/// input and/or gate output.
pub open spec fn no_redef(inputs: Seq<usize>, gates: Seq<And>) -> bool {
    forall|k1: int, k2: int|
        #![auto]
        0 <= k1 < k2 < defs(inputs, gates).len() ==> defs(inputs, gates)[k1] != defs(
            inputs,
            gates,
        )[k2]
}

/// `v` is a declared primary input.
pub open spec fn is_input(inputs: Seq<usize>, v: usize) -> bool {
    exists|k: int| #![auto] 0 <= k < inputs.len() && inputs[k] == v
}

/// The position of the primary input `v` among the declared inputs.
pub open spec fn input_pos(inputs: Seq<usize>, v: usize) -> int {
    choose|k: int| #![auto] 0 <= k < inputs.len() && inputs[k] == v
}

/// `v` is defined by a gate.
pub open spec fn is_gate(gates: Seq<And>, v: usize) -> bool {
    exists|k: int| #![auto] 0 <= k < gates.len() && gates[k].lhs.var == v
}

/// Whichever gate defines `v`.
pub open spec fn gate_of(gates: Seq<And>, v: usize) -> And {
    gates[choose|k: int| #![auto] 0 <= k < gates.len() && gates[k].lhs.var == v]
}

/// `v` is mentioned by an output literal or a gate (as output or
/// operand).
pub open spec fn is_referenced(outputs: Seq<Lit>, gates: Seq<And>, v: usize) -> bool {
    ||| exists|k: int| #![auto] 0 <= k < outputs.len() && outputs[k].var == v
    ||| exists|k: int|
        #![auto]
        0 <= k < gates.len() && (gates[k].lhs.var == v || gates[k].rhs0.var == v
            || gates[k].rhs1.var == v)
}

/// The node, wrapped in a fresh negation when the polarity bit is set.
pub open spec fn wrap_neg(a: AIG, neg: bool) -> AIG {
    if neg {
        AIG::I(Inv(Box::new(a)))
    } else {
        a
    }
}

/// The denotation of signal `v`: the term graph that resolution must
/// store for it, independent of any resolution order. An input denotes
/// its terminal; a gate denotes the conjunction of its operands'
/// denotations, each wrapped in a negation when its polarity bit is set.
/// `fuel` bounds the chain of gate lookups: an undefined or cyclically
/// defined signal denotes nothing at any fuel.
pub open spec fn denote(inputs: Seq<usize>, gates: Seq<And>, v: usize, fuel: nat) -> Option<AIG>
    decreases fuel,
{
    if is_input(inputs, v) {
        Some(AIG::G(Sym(input_pos(inputs, v) as usize)))
    } else if is_gate(gates, v) {
        if fuel == 0 {
            None
        } else {
            let g = gate_of(gates, v);
            let d0 = denote(inputs, gates, g.rhs0.var, (fuel - 1) as nat);
            let d1 = denote(inputs, gates, g.rhs1.var, (fuel - 1) as nat);
            if d0 is Some && d1 is Some {
                Some(
                    AIG::A(
                        aig::And(
                            Box::new(wrap_neg(d0->0, g.rhs0.neg)),
                            Box::new(wrap_neg(d1->0, g.rhs1.neg)),
                        ),
                    ),
                )
            } else {
                None
            }
        }
    } else {
        None
    }
}

/// Signal `v` resolves: its denotation exists at some fuel.
pub open spec fn resolvable(inputs: Seq<usize>, gates: Seq<And>, v: usize) -> bool {
    exists|fuel: nat| (#[trigger] denote(inputs, gates, v, fuel)) is Some
}

/// The resolved term graph of signal `v`.
pub open spec fn resolve(inputs: Seq<usize>, gates: Seq<And>, v: usize) -> AIG {
    denote(inputs, gates, v, choose|fuel: nat| (#[trigger] denote(inputs, gates, v, fuel)) is Some)->0
}

/// Every referenced signal resolves.
pub open spec fn all_resolved(inputs: Seq<usize>, outputs: Seq<Lit>, gates: Seq<And>) -> bool {
    forall|v: usize| #[trigger] is_referenced(outputs, gates, v) ==> resolvable(inputs, gates, v)
}

/// More fuel never changes an existing denotation.
pub proof fn lemma_denote_mono(inputs: Seq<usize>, gates: Seq<And>, v: usize, f1: nat, f2: nat)
    requires
        denote(inputs, gates, v, f1) is Some,
        f1 <= f2,
    ensures
        denote(inputs, gates, v, f2) == denote(inputs, gates, v, f1),
    decreases f1,
{
    if !is_input(inputs, v) && is_gate(gates, v) {
        let g = gate_of(gates, v);
        lemma_denote_mono(inputs, gates, g.rhs0.var, (f1 - 1) as nat, (f2 - 1) as nat);
        lemma_denote_mono(inputs, gates, g.rhs1.var, (f1 - 1) as nat, (f2 - 1) as nat);
    }
}

/// A denotation at any fuel is the resolved graph.
pub proof fn lemma_denote_resolve(inputs: Seq<usize>, gates: Seq<And>, v: usize, f: nat)
    requires
        denote(inputs, gates, v, f) is Some,
    ensures
        resolvable(inputs, gates, v),
        denote(inputs, gates, v, f) == Some(resolve(inputs, gates, v)),
{
    let fw = choose|fuel: nat| (#[trigger] denote(inputs, gates, v, fuel)) is Some;
    if fw <= f {
        lemma_denote_mono(inputs, gates, v, fw, f);
    } else {
        lemma_denote_mono(inputs, gates, v, f, fw);
    }
}

/// Under single definition, a signal is not both input and gate output,
/// input positions are unique, and a gate-defined signal's gate is
/// the one gate whose output it is.
pub proof fn lemma_defs_unique(inputs: Seq<usize>, gates: Seq<And>, v: usize)
    requires
        no_redef(inputs, gates),
    ensures
        !(is_input(inputs, v) && is_gate(gates, v)),
        is_input(inputs, v) ==> 0 <= input_pos(inputs, v) < inputs.len() && inputs[input_pos(
            inputs,
            v,
        )] == v,
        forall|k: int|
            0 <= k < inputs.len() && inputs[k] == v ==> k == input_pos(inputs, v),
        forall|k: int|
            0 <= k < gates.len() && (#[trigger] gates[k]).lhs.var == v ==> gates[k] == gate_of(
                gates,
                v,
            ),
{
    let d = defs(inputs, gates);
    if is_input(inputs, v) && is_gate(gates, v) {
        let ki = choose|k: int| #![auto] 0 <= k < inputs.len() && inputs[k] == v;
        let kg = choose|k: int| #![auto] 0 <= k < gates.len() && gates[k].lhs.var == v;
        assert(d[ki] == v);
        assert(d[inputs.len() + kg] == v);
    }
    if is_input(inputs, v) {
        let kc = input_pos(inputs, v);
        assert forall|k: int| 0 <= k < inputs.len() && inputs[k] == v implies k == input_pos(
            inputs,
            v,
        ) by {
            if k != kc {
                assert(d[k] == v && d[kc] == v);
            }
        }
    }
    assert forall|k: int|
        0 <= k < gates.len() && (#[trigger] gates[k]).lhs.var == v implies gates[k] == gate_of(
        gates,
        v,
    ) by {
        let kc = choose|kk: int| #![auto] 0 <= kk < gates.len() && gates[kk].lhs.var == v;
        if k != kc {
            assert(d[inputs.len() + k] == v && d[inputs.len() + kc] == v);
        }
    }
}


/// The denotation is order-free: two gate lists holding the same gates
/// give every signal the same denotation at every fuel.
pub proof fn lemma_denote_order(
    inputs: Seq<usize>,
    gates1: Seq<And>,
    gates2: Seq<And>,
    v: usize,
    f: nat,
)
    requires
        no_redef(inputs, gates1),
        no_redef(inputs, gates2),
        forall|g: And| #[trigger] gates1.contains(g) <==> #[trigger] gates2.contains(g),
    ensures
        denote(inputs, gates1, v, f) == denote(inputs, gates2, v, f),
    decreases f,
{
    assert(is_gate(gates1, v) == is_gate(gates2, v)) by {
        if is_gate(gates1, v) {
            let k = choose|k: int| #![auto] 0 <= k < gates1.len() && gates1[k].lhs.var == v;
            assert(gates1.contains(gates1[k]));
            assert(gates2.contains(gates1[k]));
            let k2 = choose|k2: int| 0 <= k2 < gates2.len() && gates2[k2] == gates1[k];
            assert(gates2[k2].lhs.var == v);
        }
        if is_gate(gates2, v) {
            let k = choose|k: int| #![auto] 0 <= k < gates2.len() && gates2[k].lhs.var == v;
            assert(gates2.contains(gates2[k]));
            assert(gates1.contains(gates2[k]));
            let k1 = choose|k1: int| 0 <= k1 < gates1.len() && gates1[k1] == gates2[k];
            assert(gates1[k1].lhs.var == v);
        }
    }
    if !is_input(inputs, v) && is_gate(gates1, v) && f > 0 {
        assert(gate_of(gates1, v) == gate_of(gates2, v)) by {
            let g = gate_of(gates1, v);
            let k = choose|k: int| #![auto] 0 <= k < gates1.len() && gates1[k].lhs.var == v;
            lemma_defs_unique(inputs, gates1, v);
            assert(g == gates1[k]);
            assert(gates1.contains(gates1[k]));
            assert(gates2.contains(g));
            let k2 = choose|k2: int| 0 <= k2 < gates2.len() && gates2[k2] == g;
            lemma_defs_unique(inputs, gates2, v);
            assert(gates2[k2] == gate_of(gates2, v));
        }
        let g = gate_of(gates1, v);
        lemma_denote_order(inputs, gates1, gates2, g.rhs0.var, (f - 1) as nat);
        lemma_denote_order(inputs, gates1, gates2, g.rhs1.var, (f - 1) as nat);
    }
}

/// Resolution order does not affect the resolved signal table: whether a
/// signal resolves, and to which term graph, depends only on the set of
/// gates, never on the order they are listed in (each gate's
/// output identifier is unique, so any resolution order reaches the same
/// result).
pub proof fn lemma_build_order_independent(
    inputs: Seq<usize>,
    gates1: Seq<And>,
    gates2: Seq<And>,
    v: usize,
)
    requires
        no_redef(inputs, gates1),
        no_redef(inputs, gates2),
        forall|g: And| #[trigger] gates1.contains(g) <==> #[trigger] gates2.contains(g),
    ensures
        resolvable(inputs, gates1, v) == resolvable(inputs, gates2, v),
        resolvable(inputs, gates1, v) ==> resolve(inputs, gates1, v) == resolve(inputs, gates2, v),
{
    if resolvable(inputs, gates1, v) {
        let f = choose|f: nat| (#[trigger] denote(inputs, gates1, v, f)) is Some;
        lemma_denote_order(inputs, gates1, gates2, v, f);
        lemma_denote_resolve(inputs, gates1, v, f);
        lemma_denote_resolve(inputs, gates2, v, f);
    }
    if resolvable(inputs, gates2, v) {
        let f = choose|f: nat| (#[trigger] denote(inputs, gates2, v, f)) is Some;
        lemma_denote_order(inputs, gates1, gates2, v, f);
        lemma_denote_resolve(inputs, gates2, v, f);
        lemma_denote_resolve(inputs, gates1, v, f);
    }
}

/// The number of unfilled slots of the signal table.
spec fn count_none(t: Seq<Option<Box<AIG>>>) -> nat
    decreases t.len(),
{
    if t.len() == 0 {
        0
    } else {
        count_none(t.drop_last()) + if t.last() is None {
            1nat
        } else {
            0nat
        }
    }
}

/// Filling an unfilled slot lowers the count by one.
proof fn lemma_count_none_update(t: Seq<Option<Box<AIG>>>, i: int, x: Box<AIG>)
    requires
        0 <= i < t.len(),
        t[i] is None,
    ensures
        count_none(t.update(i, Some(x))) + 1 == count_none(t),
    decreases t.len(),
{
    let u = t.update(i, Some(x));
    if i == t.len() - 1 {
        assert(u.drop_last() =~= t.drop_last());
        assert(u.last() is Some);
    } else {
        lemma_count_none_update(t.drop_last(), i, x);
        assert(u.drop_last() =~= t.drop_last().update(i, Some(x)));
        assert(u.last() == t.last());
    }
}

/// At a fixpoint of resolution, every gate whose output slot is still
/// unfilled is unresolvable at any fuel: each such gate waits on an
/// operand that is itself an unfilled gate or undefined, in a cycle or a
/// chain that never bottoms out.
proof fn lemma_stuck(
    inputs: Seq<usize>,
    gates: Seq<And>,
    tbl: Seq<Option<Box<AIG>>>,
    f: nat,
)
    requires
        no_redef(inputs, gates),
        forall|k: int|
            0 <= k < inputs.len() ==> inputs[k] < tbl.len() && (#[trigger] tbl[inputs[k] as int])
                is Some,
        forall|k: int|
            0 <= k < gates.len() ==> (#[trigger] gates[k]).lhs.var < tbl.len()
                && gates[k].rhs0.var < tbl.len() && gates[k].rhs1.var < tbl.len(),
        forall|k: int|
            0 <= k < gates.len() && tbl[(#[trigger] gates[k]).lhs.var as int] is None ==> (tbl[
                gates[k].rhs0.var as int
            ] is None || tbl[gates[k].rhs1.var as int] is None),
    ensures
        forall|v: usize|
            v < tbl.len() && #[trigger] is_gate(gates, v) && tbl[v as int] is None ==> denote(
                inputs,
                gates,
                v,
                f,
            ) is None,
    decreases f,
{
    if f > 0 {
        lemma_stuck(inputs, gates, tbl, (f - 1) as nat);
    }
    assert forall|v: usize|
        v < tbl.len() && #[trigger] is_gate(gates, v) && tbl[v as int] is None implies denote(
        inputs,
        gates,
        v,
        f,
    ) is None by {
        assert(!is_input(inputs, v)) by {
            if is_input(inputs, v) {
                let k = choose|k: int| #![auto] 0 <= k < inputs.len() && inputs[k] == v;
                assert(tbl[inputs[k] as int] is Some);
            }
        }
        if f > 0 {
            let k = choose|k: int| #![auto] 0 <= k < gates.len() && gates[k].lhs.var == v;
            lemma_defs_unique(inputs, gates, v);
            let g = gate_of(gates, v);
            assert(g == gates[k]);
            assert(tbl[g.rhs0.var as int] is None || tbl[g.rhs1.var as int] is None);
            if tbl[g.rhs0.var as int] is None {
                let w = g.rhs0.var;
                assert(!is_input(inputs, w)) by {
                    if is_input(inputs, w) {
                        let kk = choose|kk: int| #![auto] 0 <= kk < inputs.len() && inputs[kk] == w;
                        assert(tbl[inputs[kk] as int] is Some);
                    }
                }
                if is_gate(gates, w) {
                    assert(denote(inputs, gates, w, (f - 1) as nat) is None);
                } else {
                    assert(denote(inputs, gates, w, (f - 1) as nat) is None);
                }
            } else {
                let w = g.rhs1.var;
                assert(!is_input(inputs, w)) by {
                    if is_input(inputs, w) {
                        let kk = choose|kk: int| #![auto] 0 <= kk < inputs.len() && inputs[kk] == w;
                        assert(tbl[inputs[kk] as int] is Some);
                    }
                }
                if is_gate(gates, w) {
                    assert(denote(inputs, gates, w, (f - 1) as nat) is None);
                } else {
                    assert(denote(inputs, gates, w, (f - 1) as nat) is None);
                }
            }
        }
    }
}

/// Read the resolved node of a signal out of the table, wrapped in a
/// fresh negation when the polarity bit asks for it.
fn table_node(tbl: &Vec<Option<Box<AIG>>>, x: usize, neg: bool) -> (r: Box<AIG>)
    requires
        x < tbl@.len(),
        tbl@[x as int] is Some,
    ensures
        *r == wrap_neg(*tbl@[x as int]->0, neg),
{
    match &tbl[x] {
        Some(b) => b.neg(neg),
        None => {
            proof {
                assert(false);
            }
            Box::new(AIG::G(Sym(0)))
        },
    }
}

/// Whether the list holds the identifier.
fn contains_usize(v: &Vec<usize>, x: usize) -> (r: bool)
    ensures
        r == v@.contains(x),
{
    let mut i: usize = 0;
    while i < v.len()
        invariant
            i <= v@.len(),
            forall|k: int| 0 <= k < i ==> v@[k] != x,
        decreases v@.len() - i,
    {
        if v[i] == x {
            return true;
        }
        i = i + 1;
    }
    proof {
        if v@.contains(x) {
            let k = choose|k: int| 0 <= k < v@.len() && v@[k] == x;
        }
    }
    false
}


/// Signal `v` is declared twice.
pub open spec fn defined_twice(inputs: Seq<usize>, gates: Seq<And>, v: usize) -> bool {
    exists|k1: int, k2: int|
        #![auto]
        0 <= k1 < k2 < defs(inputs, gates).len() && defs(inputs, gates)[k1] == v && defs(
            inputs,
            gates,
        )[k2] == v
}

/// Machine limit: identifiers leave room for a table sized one past the
/// largest of them.
pub open spec fn vars_bounded(inputs: Seq<usize>, outputs: Seq<Lit>, gates: Seq<And>) -> bool {
    &&& forall|k: int| 0 <= k < inputs.len() ==> #[trigger] inputs[k] < usize::MAX
    &&& forall|k: int| 0 <= k < outputs.len() ==> (#[trigger] outputs[k]).var < usize::MAX
    &&& forall|k: int|
        0 <= k < gates.len() ==> (#[trigger] gates[k]).lhs.var < usize::MAX
            && gates[k].rhs0.var < usize::MAX && gates[k].rhs1.var < usize::MAX
}

/// Every table slot that is filled holds the signal's resolved graph.
spec fn tbl_ok(inputs: Seq<usize>, gates: Seq<And>, tbl: Seq<Option<Box<AIG>>>) -> bool {
    forall|v: int|
        0 <= v < tbl.len() ==> ((#[trigger] tbl[v]) matches Some(node) ==> resolvable(
            inputs,
            gates,
            v as usize,
        ) && *node == resolve(inputs, gates, v as usize))
}

/// Every declared input's slot is filled.
spec fn tbl_inputs(inputs: Seq<usize>, tbl: Seq<Option<Box<AIG>>>) -> bool {
    forall|k: int|
        0 <= k < inputs.len() ==> #[trigger] inputs[k] < tbl.len() && tbl[inputs[k] as int] is Some
}

/// Only declared signals have filled slots.
spec fn tbl_defined(inputs: Seq<usize>, gates: Seq<And>, tbl: Seq<Option<Box<AIG>>>) -> bool {
    forall|v: int|
        0 <= v < tbl.len() && (#[trigger] tbl[v]) is Some ==> is_input(inputs, v as usize)
            || is_gate(gates, v as usize)
}

/// Resolution has reached a fixpoint: every unresolved gate waits on an
/// unresolved operand.
spec fn tbl_stuck(gates: Seq<And>, tbl: Seq<Option<Box<AIG>>>) -> bool {
    forall|k: int|
        0 <= k < gates.len() && tbl[(#[trigger] gates[k]).lhs.var as int] is None ==> (tbl[gates[k].rhs0.var as int] is None
            || tbl[gates[k].rhs1.var as int] is None)
}

/// Record an unresolved identifier, once.
fn note_id(ids: &mut Vec<usize>, x: usize)
    requires
        forall|t1: int, t2: int| 0 <= t1 < t2 < old(ids)@.len() ==> old(ids)@[t1] != old(ids)@[t2],
    ensures
        final(ids)@.contains(x),
        forall|v: usize| old(ids)@.contains(v) ==> final(ids)@.contains(v),
        forall|t1: int, t2: int|
            0 <= t1 < t2 < final(ids)@.len() ==> final(ids)@[t1] != final(ids)@[t2],
        forall|t: int|
            0 <= t < final(ids)@.len() ==> old(ids)@.contains(#[trigger] final(ids)@[t])
                || final(ids)@[t] == x,
        final(ids)@.len() >= 1,
{
    let ghost ids0 = ids@;
    if !contains_usize(ids, x) {
        ids.push(x);
        proof {
            assert(ids@[ids@.len() - 1] == x);
            assert forall|v: usize| ids0.contains(v) implies ids@.contains(v) by {
                let k = choose|k: int| 0 <= k < ids0.len() && ids0[k] == v;
                assert(ids@[k] == v);
            }
            assert forall|t1: int, t2: int|
                0 <= t1 < t2 < ids@.len() implies ids@[t1] != ids@[t2] by {
                if t2 == ids@.len() - 1 {
                    assert(ids0.contains(ids0[t1]));
                }
            }
            assert forall|t: int| 0 <= t < ids@.len() implies ids0.contains(
                #[trigger] ids@[t],
            ) || ids@[t] == x by {
                if t < ids@.len() - 1 {
                    assert(ids0[t] == ids@[t]);
                    assert(ids0.contains(ids0[t]));
                }
            }
        }
    } else {
        proof {
            assert forall|t: int| 0 <= t < ids@.len() implies ids0.contains(
                #[trigger] ids@[t],
            ) || ids@[t] == x by {
                assert(ids0.contains(ids0[t]));
            }
        }
    }
}

/// Resolve the textual gate list into a shared term graph and look the
/// requested outputs up. Inputs are declared in order; gates are
/// unordered (a gate may be listed before its operands are resolvable).
/// Exactly one of three things happens: some identifier is declared
/// twice and is reported; or every referenced identifier resolves and
/// each output's graph, complemented when its polarity bit is set, is
/// returned; or resolution reaches a fixpoint with unresolvable
/// references remaining (undefined somewhere or cyclic), and exactly
/// those identifiers are reported.
#[verifier::rlimit(100)]
pub fn build(inputs: &Vec<usize>, outputs: &Vec<Lit>, gates: &Vec<And>) -> (r: Result<
    Vec<Box<AIG>>,
    Error,
>)
    requires
        vars_bounded(inputs@, outputs@, gates@),
    ensures
        !no_redef(inputs@, gates@) ==> (r matches Err(e) && e matches Error::Redefined(v)
            && defined_twice(inputs@, gates@, v)),
        no_redef(inputs@, gates@) && all_resolved(inputs@, outputs@, gates@) ==> (r matches Ok(outs)
            && outs@.len() == outputs@.len() && (forall|j: int|
            0 <= j < outputs@.len() ==> *(#[trigger] outs@[j]) == wrap_neg(
                resolve(inputs@, gates@, outputs@[j].var),
                outputs@[j].neg,
            ))),
        no_redef(inputs@, gates@) && !all_resolved(inputs@, outputs@, gates@) ==> (r matches Err(e)
            && e matches Error::Unresolved(ids) && ids@.len() > 0 && (forall|t: int|
            0 <= t < ids@.len() ==> is_referenced(outputs@, gates@, #[trigger] ids@[t])
                && !resolvable(inputs@, gates@, ids@[t])) && (forall|v: usize|
            is_referenced(outputs@, gates@, v) && !resolvable(inputs@, gates@, v)
                ==> ids@.contains(v)) && (forall|t1: int, t2: int|
            0 <= t1 < t2 < ids@.len() ==> ids@[t1] != ids@[t2])),
{
    // the declared identifiers, in declaration order
    let mut dv: Vec<usize> = Vec::new();
    let mut i: usize = 0;
    while i < inputs.len()
        invariant
            i <= inputs@.len(),
            dv@ =~= inputs@.take(i as int),
        decreases inputs@.len() - i,
    {
        dv.push(inputs[i]);
        i = i + 1;
    }
    let mut k: usize = 0;
    while k < gates.len()
        invariant
            k <= gates@.len(),
            dv@ =~= inputs@ + gates@.take(k as int).map_values(|g: And| g.lhs.var),
        decreases gates@.len() - k,
    {
        dv.push(gates[k].lhs.var);
        proof {
            assert(dv@ =~= inputs@ + gates@.take(k as int + 1).map_values(|g: And| g.lhs.var));
        }
        k = k + 1;
    }
    proof {
        assert(gates@.take(gates@.len() as int) =~= gates@);
        assert(dv@ =~= defs(inputs@, gates@));
    }
    // single definition per signal
    let mut a: usize = 0;
    while a < dv.len()
        invariant
            a <= dv@.len(),
            dv@ == defs(inputs@, gates@),
            forall|k1: int, k2: int| 0 <= k1 < k2 < dv@.len() && k1 < a ==> dv@[k1] != dv@[k2],
        decreases dv@.len() - a,
    {
        let mut b: usize = a + 1;
        while b < dv.len()
            invariant
                a < b || b == a + 1,
                a < dv@.len(),
                b <= dv@.len(),
                a + 1 <= b,
                dv@ == defs(inputs@, gates@),
                forall|k1: int, k2: int| 0 <= k1 < k2 < dv@.len() && k1 < a ==> dv@[k1] != dv@[k2],
                forall|k2: int| a < k2 < b ==> dv@[a as int] != dv@[k2],
            decreases dv@.len() - b,
        {
            if dv[a] == dv[b] {
                proof {
                    assert(defined_twice(inputs@, gates@, dv@[a as int]));
                }
                return Err(Error::Redefined(dv[a]));
            }
            b = b + 1;
        }
        a = a + 1;
    }
    assert(no_redef(inputs@, gates@));
    // the largest referenced identifier
    let mut maxv: usize = 0;
    let mut j: usize = 0;
    while j < dv.len()
        invariant
            j <= dv@.len(),
            dv@ == defs(inputs@, gates@),
            vars_bounded(inputs@, outputs@, gates@),
            maxv < usize::MAX,
            forall|t: int| 0 <= t < j ==> #[trigger] dv@[t] <= maxv,
        decreases dv@.len() - j,
    {
        if dv[j] > maxv {
            proof {
                if j < inputs@.len() {
                    assert(dv@[j as int] == inputs@[j as int]);
                } else {
                    assert(dv@[j as int] == gates@.map_values(|g: And| g.lhs.var)[j - inputs@.len()]);
                }
            }
            maxv = dv[j];
        }
        j = j + 1;
    }
    let mut j2: usize = 0;
    while j2 < outputs.len()
        invariant
            j2 <= outputs@.len(),
            vars_bounded(inputs@, outputs@, gates@),
            maxv < usize::MAX,
            forall|t: int| 0 <= t < dv@.len() ==> #[trigger] dv@[t] <= maxv,
            forall|t: int| 0 <= t < j2 ==> (#[trigger] outputs@[t]).var <= maxv,
        decreases outputs@.len() - j2,
    {
        if outputs[j2].var > maxv {
            maxv = outputs[j2].var;
        }
        j2 = j2 + 1;
    }
    let mut j3: usize = 0;
    while j3 < gates.len()
        invariant
            j3 <= gates@.len(),
            vars_bounded(inputs@, outputs@, gates@),
            maxv < usize::MAX,
            forall|t: int| 0 <= t < dv@.len() ==> #[trigger] dv@[t] <= maxv,
            forall|t: int| 0 <= t < outputs@.len() ==> (#[trigger] outputs@[t]).var <= maxv,
            forall|t: int|
                0 <= t < j3 ==> (#[trigger] gates@[t]).rhs0.var <= maxv && gates@[t].rhs1.var
                    <= maxv,
        decreases gates@.len() - j3,
    {
        if gates[j3].rhs0.var > maxv {
            maxv = gates[j3].rhs0.var;
        }
        if gates[j3].rhs1.var > maxv {
            maxv = gates[j3].rhs1.var;
        }
        j3 = j3 + 1;
    }
    proof {
        assert forall|t: int| 0 <= t < inputs@.len() implies #[trigger] inputs@[t] <= maxv by {
            assert(dv@[t] == inputs@[t]);
        }
        assert forall|t: int| 0 <= t < gates@.len() implies (#[trigger] gates@[t]).lhs.var
            <= maxv by {
            assert(dv@[inputs@.len() + t] == gates@[t].lhs.var);
        }
    }
    // the signal table, sized one past the largest identifier
    let mut tbl: Vec<Option<Box<AIG>>> = Vec::new();
    while tbl.len() < maxv + 1
        invariant
            maxv < usize::MAX,
            tbl@.len() <= maxv + 1,
            forall|v: int| 0 <= v < tbl@.len() ==> (#[trigger] tbl@[v]) is None,
        decreases maxv + 1 - tbl@.len(),
    {
        tbl.push(None);
    }
    // one fresh terminal per declared input
    let mut ki: usize = 0;
    while ki < inputs.len()
        invariant
            ki <= inputs@.len(),
            no_redef(inputs@, gates@),
            tbl@.len() == maxv + 1,
            forall|t: int| 0 <= t < inputs@.len() ==> #[trigger] inputs@[t] <= maxv,
            tbl_ok(inputs@, gates@, tbl@),
            tbl_defined(inputs@, gates@, tbl@),
            forall|t: int|
                0 <= t < ki ==> #[trigger] inputs@[t] < tbl@.len() && tbl@[inputs@[t] as int]
                    is Some,
        decreases inputs@.len() - ki,
    {
        let v = inputs[ki];
        let ghost tprev = tbl@;
        tbl[v] = Some(Box::new(AIG::G(Sym(ki))));
        proof {
            assert(is_input(inputs@, v)) by {
                assert(inputs@[ki as int] == v);
            }
            lemma_defs_unique(inputs@, gates@, v);
            assert(input_pos(inputs@, v) == ki as int);
            assert(denote(inputs@, gates@, v, 0) == Some(AIG::G(Sym(ki))));
            lemma_denote_resolve(inputs@, gates@, v, 0);
            assert forall|w: int|
                0 <= w < tbl@.len() implies ((#[trigger] tbl@[w]) matches Some(node)
                ==> resolvable(inputs@, gates@, w as usize) && *node == resolve(
                inputs@,
                gates@,
                w as usize,
            )) by {
                if w != v {
                    assert(tbl@[w] == tprev[w]);
                }
            }
        }
        ki = ki + 1;
    }
    // resolve gates until nothing more resolves
    loop
        invariant
            no_redef(inputs@, gates@),
            vars_bounded(inputs@, outputs@, gates@),
            tbl@.len() == maxv + 1,
            forall|t: int| 0 <= t < inputs@.len() ==> #[trigger] inputs@[t] <= maxv,
            forall|t: int| 0 <= t < outputs@.len() ==> (#[trigger] outputs@[t]).var <= maxv,
            forall|t: int|
                0 <= t < gates@.len() ==> (#[trigger] gates@[t]).lhs.var <= maxv
                    && gates@[t].rhs0.var <= maxv && gates@[t].rhs1.var <= maxv,
            tbl_ok(inputs@, gates@, tbl@),
            tbl_defined(inputs@, gates@, tbl@),
            tbl_inputs(inputs@, tbl@),
        ensures
            tbl_stuck(gates@, tbl@),
        decreases count_none(tbl@),
    {
        let ghost tstart = tbl@;
        let mut progress = false;
        let mut k: usize = 0;
        while k < gates.len()
            invariant
                k <= gates@.len(),
                no_redef(inputs@, gates@),
                tbl@.len() == maxv + 1,
                forall|t: int|
                    0 <= t < gates@.len() ==> (#[trigger] gates@[t]).lhs.var <= maxv
                        && gates@[t].rhs0.var <= maxv && gates@[t].rhs1.var <= maxv,
                tbl_ok(inputs@, gates@, tbl@),
                tbl_defined(inputs@, gates@, tbl@),
                tbl_inputs(inputs@, tbl@),
                !progress ==> tbl@ == tstart,
                !progress ==> forall|kk: int|
                    0 <= kk < k && tbl@[(#[trigger] gates@[kk]).lhs.var as int] is None ==> (tbl@[
                        gates@[kk].rhs0.var as int
                    ] is None || tbl@[gates@[kk].rhs1.var as int] is None),
                progress ==> count_none(tbl@) < count_none(tstart),
            decreases gates@.len() - k,
        {
            let g = gates[k];
            let lv = g.lhs.var;
            if tbl[lv].is_none() && tbl[g.rhs0.var].is_some() && tbl[g.rhs1.var].is_some() {
                let w0 = table_node(&tbl, g.rhs0.var, g.rhs0.neg);
                let w1 = table_node(&tbl, g.rhs1.var, g.rhs1.neg);
                let node = Box::new(AIG::A(aig::And(w0, w1)));
                let ghost tprev = tbl@;
                let ghost nodeg = *node;
                let ghost nb = node;
                let ghost was_progress = progress;
                tbl[lv] = Some(node);
                progress = true;
                proof {
                    assert(tbl@ == tprev.update(lv as int, Some(nb)));
                    lemma_count_none_update(tprev, lv as int, nb);
                    assert(count_none(tbl@) < count_none(tstart)) by {
                        if !was_progress {
                            assert(tprev == tstart);
                        }
                    }
                    // the stored node is this signal's denotation
                    assert(!is_input(inputs@, lv)) by {
                        if is_input(inputs@, lv) {
                            let kk = choose|kk: int|
                                #![auto]
                                0 <= kk < inputs@.len() && inputs@[kk] == lv;
                            assert(tprev[inputs@[kk] as int] is Some);
                        }
                    }
                    assert(is_gate(gates@, lv)) by {
                        assert(gates@[k as int].lhs.var == lv);
                    }
                    lemma_defs_unique(inputs@, gates@, lv);
                    assert(gate_of(gates@, lv) == g);
                    let fa = choose|f: nat|
                        (#[trigger] denote(inputs@, gates@, g.rhs0.var, f)) is Some;
                    let fb = choose|f: nat|
                        (#[trigger] denote(inputs@, gates@, g.rhs1.var, f)) is Some;
                    let f = if fa <= fb {
                        fb + 1
                    } else {
                        fa + 1
                    };
                    lemma_denote_resolve(inputs@, gates@, g.rhs0.var, fa);
                    lemma_denote_resolve(inputs@, gates@, g.rhs1.var, fb);
                    lemma_denote_mono(inputs@, gates@, g.rhs0.var, fa, (f - 1) as nat);
                    lemma_denote_mono(inputs@, gates@, g.rhs1.var, fb, (f - 1) as nat);
                    assert(denote(inputs@, gates@, lv, f) == Some(nodeg)) by {
                        assert(*w0 == wrap_neg(resolve(inputs@, gates@, g.rhs0.var), g.rhs0.neg));
                        assert(*w1 == wrap_neg(resolve(inputs@, gates@, g.rhs1.var), g.rhs1.neg));
                    }
                    lemma_denote_resolve(inputs@, gates@, lv, f);
                    assert forall|w: int|
                        0 <= w < tbl@.len() implies ((#[trigger] tbl@[w]) matches Some(nd)
                        ==> resolvable(inputs@, gates@, w as usize) && *nd == resolve(
                        inputs@,
                        gates@,
                        w as usize,
                    )) by {
                        if w != lv {
                            assert(tbl@[w] == tprev[w]);
                        }
                    }
                }
            }
            k = k + 1;
        }
        if !progress {
            break ;
        }
    }
    // collect the unresolvable references
    let mut ids: Vec<usize> = Vec::new();
    let mut k2: usize = 0;
    while k2 < gates.len()
        invariant
            k2 <= gates@.len(),
            tbl@.len() == maxv + 1,
            forall|t: int|
                0 <= t < gates@.len() ==> (#[trigger] gates@[t]).lhs.var <= maxv
                    && gates@[t].rhs0.var <= maxv && gates@[t].rhs1.var <= maxv,
            forall|t1: int, t2: int| 0 <= t1 < t2 < ids@.len() ==> ids@[t1] != ids@[t2],
            forall|t: int|
                0 <= t < ids@.len() ==> #[trigger] ids@[t] < tbl@.len() && tbl@[ids@[t] as int]
                    is None && is_referenced(outputs@, gates@, ids@[t]),
            forall|kk: int|
                0 <= kk < k2 ==> ((tbl@[(#[trigger] gates@[kk]).lhs.var as int] is None
                    ==> ids@.contains(gates@[kk].lhs.var)) && (tbl@[gates@[kk].rhs0.var as int]
                    is None ==> ids@.contains(gates@[kk].rhs0.var)) && (tbl@[gates@[kk].rhs1.var as int] is None
                    ==> ids@.contains(gates@[kk].rhs1.var))),
        decreases gates@.len() - k2,
    {
        let g = gates[k2];
        proof {
            assert(is_referenced(outputs@, gates@, g.lhs.var) && is_referenced(
                outputs@,
                gates@,
                g.rhs0.var,
            ) && is_referenced(outputs@, gates@, g.rhs1.var)) by {
                assert(gates@[k2 as int].lhs.var == g.lhs.var && gates@[k2 as int].rhs0.var
                    == g.rhs0.var && gates@[k2 as int].rhs1.var == g.rhs1.var);
            }
        }
        if tbl[g.lhs.var].is_none() {
            note_id(&mut ids, g.lhs.var);
        }
        if tbl[g.rhs0.var].is_none() {
            note_id(&mut ids, g.rhs0.var);
        }
        if tbl[g.rhs1.var].is_none() {
            note_id(&mut ids, g.rhs1.var);
        }
        k2 = k2 + 1;
    }
    let mut k3: usize = 0;
    while k3 < outputs.len()
        invariant
            k3 <= outputs@.len(),
            tbl@.len() == maxv + 1,
            forall|t: int| 0 <= t < outputs@.len() ==> (#[trigger] outputs@[t]).var <= maxv,
            forall|t1: int, t2: int| 0 <= t1 < t2 < ids@.len() ==> ids@[t1] != ids@[t2],
            forall|t: int|
                0 <= t < ids@.len() ==> #[trigger] ids@[t] < tbl@.len() && tbl@[ids@[t] as int]
                    is None && is_referenced(outputs@, gates@, ids@[t]),
            forall|kk: int|
                0 <= kk < gates@.len() ==> ((tbl@[(#[trigger] gates@[kk]).lhs.var as int] is None
                    ==> ids@.contains(gates@[kk].lhs.var)) && (tbl@[gates@[kk].rhs0.var as int]
                    is None ==> ids@.contains(gates@[kk].rhs0.var)) && (tbl@[gates@[kk].rhs1.var as int] is None
                    ==> ids@.contains(gates@[kk].rhs1.var))),
            forall|kk: int|
                0 <= kk < k3 && tbl@[(#[trigger] outputs@[kk]).var as int] is None
                    ==> ids@.contains(outputs@[kk].var),
        decreases outputs@.len() - k3,
    {
        let o = outputs[k3];
        proof {
            assert(is_referenced(outputs@, gates@, o.var)) by {
                assert(outputs@[k3 as int].var == o.var);
            }
        }
        if tbl[o.var].is_none() {
            note_id(&mut ids, o.var);
        }
        k3 = k3 + 1;
    }
    // an unfilled referenced slot is an unresolvable signal, and back
    proof {
        assert forall|v: usize|
            v < tbl@.len() && tbl@[v as int] is None implies !resolvable(inputs@, gates@, v) by {
            assert(!is_input(inputs@, v)) by {
                if is_input(inputs@, v) {
                    let kk = choose|kk: int| #![auto] 0 <= kk < inputs@.len() && inputs@[kk] == v;
                    assert(tbl@[inputs@[kk] as int] is Some);
                }
            }
            if is_gate(gates@, v) {
                assert forall|f: nat| denote(inputs@, gates@, v, f) is None by {
                    lemma_stuck(inputs@, gates@, tbl@, f);
                }
            } else {
                assert forall|f: nat| denote(inputs@, gates@, v, f) is None by {}
            }
            if resolvable(inputs@, gates@, v) {
                let f = choose|f: nat| (#[trigger] denote(inputs@, gates@, v, f)) is Some;
            }
        }
    }
    if ids.len() > 0 {
        proof {
            // something referenced is unresolvable
            assert(!all_resolved(inputs@, outputs@, gates@)) by {
                assert(is_referenced(outputs@, gates@, ids@[0]) && !resolvable(
                    inputs@,
                    gates@,
                    ids@[0],
                ));
            }
            // and everything unresolvable that is referenced was noted
            assert forall|v: usize|
                is_referenced(outputs@, gates@, v) && !resolvable(
                    inputs@,
                    gates@,
                    v,
                ) implies ids@.contains(v) by {
                assert(v < tbl@.len() && tbl@[v as int] is None) by {
                    if exists|kk: int| #![auto] 0 <= kk < outputs@.len() && outputs@[kk].var == v {
                        let kk = choose|kk: int|
                            #![auto]
                            0 <= kk < outputs@.len() && outputs@[kk].var == v;
                        assert(outputs@[kk].var <= maxv);
                        if tbl@[v as int] is Some {
                            assert(resolvable(inputs@, gates@, v));
                        }
                    } else {
                        let kk = choose|kk: int|
                            #![auto]
                            0 <= kk < gates@.len() && (gates@[kk].lhs.var == v || gates@[kk].rhs0.var
                                == v || gates@[kk].rhs1.var == v);
                        if tbl@[v as int] is Some {
                            assert(resolvable(inputs@, gates@, v));
                        }
                    }
                }
                let kk2 = choose|kk2: int|
                    #![auto]
                    0 <= kk2 < outputs@.len() && outputs@[kk2].var == v || 0 <= kk2 < gates@.len()
                        && (gates@[kk2].lhs.var == v || gates@[kk2].rhs0.var == v
                        || gates@[kk2].rhs1.var == v);
                assert(ids@.contains(v));
            }
        }
        return Err(Error::Unresolved(ids));
    }
    // every referenced slot is filled: look the outputs up
    proof {
        assert forall|v: usize|
            is_referenced(outputs@, gates@, v) implies resolvable(inputs@, gates@, v) by {
            if exists|kk: int| #![auto] 0 <= kk < outputs@.len() && outputs@[kk].var == v {
                let kk = choose|kk: int|
                    #![auto]
                    0 <= kk < outputs@.len() && outputs@[kk].var == v;
                if tbl@[v as int] is None {
                    assert(ids@.contains(v));
                    let t = choose|t: int| 0 <= t < ids@.len() && ids@[t] == v;
                }
            } else {
                let kk = choose|kk: int|
                    #![auto]
                    0 <= kk < gates@.len() && (gates@[kk].lhs.var == v || gates@[kk].rhs0.var == v
                        || gates@[kk].rhs1.var == v);
                if tbl@[v as int] is None {
                    assert(ids@.contains(v));
                    let t = choose|t: int| 0 <= t < ids@.len() && ids@[t] == v;
                }
            }
        }
        assert(all_resolved(inputs@, outputs@, gates@));
    }
    let mut outs: Vec<Box<AIG>> = Vec::new();
    let mut j4: usize = 0;
    while j4 < outputs.len()
        invariant
            j4 <= outputs@.len(),
            tbl@.len() == maxv + 1,
            forall|t: int| 0 <= t < outputs@.len() ==> (#[trigger] outputs@[t]).var <= maxv,
            tbl_ok(inputs@, gates@, tbl@),
            forall|kk: int|
                0 <= kk < outputs@.len() && tbl@[(#[trigger] outputs@[kk]).var as int] is None
                    ==> ids@.contains(outputs@[kk].var),
            ids@.len() == 0,
            outs@.len() == j4,
            forall|j: int|
                0 <= j < j4 ==> *(#[trigger] outs@[j]) == wrap_neg(
                    resolve(inputs@, gates@, outputs@[j].var),
                    outputs@[j].neg,
                ),
        decreases outputs@.len() - j4,
    {
        let o = outputs[j4];
        proof {
            if tbl@[o.var as int] is None {
                assert(tbl@[(outputs@[j4 as int]).var as int] is None);
                assert(ids@.contains(outputs@[j4 as int].var));
                let t = choose|t: int| 0 <= t < ids@.len() && ids@[t] == outputs@[j4 as int].var;
            }
        }
        let out = table_node(&tbl, o.var, o.neg);
        outs.push(out);
        j4 = j4 + 1;
    }
    Ok(outs)
}

} // verus!
