//! Binary decision diagrams read straight off a truth table: a complete
//! tree built layer by layer from the leaves, and a structural reduction
//! collapsing nodes whose branches are equal.

use vstd::prelude::*;
use crate::qmc::pow2;

verus! {

/// A leaf: one truth-table entry.
#[derive(Debug)]
pub struct Leaf {
    pub label: bool,
}

/// An inner node: the branch taken on false and the branch taken on
/// true.
#[derive(Debug)]
pub struct Node {
    pub f: Box<BDD>,
    pub t: Box<BDD>,
}

/// A decision diagram over the inputs in fixed order.
#[derive(Debug)]
pub enum BDD {
    L(Leaf),
    N(Node),
}

/// A complete tree: every path from here to a leaf has length `d`.
pub open spec fn complete(b: BDD, d: nat) -> bool
    decreases b,
{
    match b {
        BDD::L(_) => d == 0,
        BDD::N(node) => d > 0 && complete(*node.f, (d - 1) as nat) && complete(
            *node.t,
            (d - 1) as nat,
        ),
    }
}

/// The leaf labels, false-branches first.
pub open spec fn leaves(b: BDD) -> Seq<bool>
    decreases b,
{
    match b {
        BDD::L(leaf) => seq![leaf.label],
        BDD::N(node) => leaves(*node.f) + leaves(*node.t),
    }
}

/// Follow a path of decisions from the root: each inner node reads the
/// next bit and takes its true or false branch; a leaf gives its label
/// (an exhausted path at an inner node reads false).
pub open spec fn bdd_lookup(b: BDD, bs: Seq<bool>) -> bool
    decreases b,
{
    match b {
        BDD::L(leaf) => leaf.label,
        BDD::N(node) => if bs.len() == 0 {
            false
        } else if bs[0] {
            bdd_lookup(*node.t, bs.drop_first())
        } else {
            bdd_lookup(*node.f, bs.drop_first())
        },
    }
}

/// The leaf index a decision path selects, first decision most
/// significant.
pub open spec fn path_index(bs: Seq<bool>) -> nat
    decreases bs.len(),
{
    if bs.len() == 0 {
        0
    } else {
        (if bs[0] {
            pow2((bs.len() - 1) as nat)
        } else {
            0
        }) + path_index(bs.drop_first())
    }
}

/// A path of `n` decisions selects an index below 2^n.
proof fn lemma_path_index_bound(bs: Seq<bool>)
    ensures
        path_index(bs) < pow2(bs.len()),
    decreases bs.len(),
{
    if bs.len() == 0 {
        assert(pow2(0) == 1);
    } else {
        lemma_path_index_bound(bs.drop_first());
    }
}

/// A complete tree of depth `d` has 2^d leaves.
proof fn lemma_leaves_len(b: BDD, d: nat)
    requires
        complete(b, d),
    ensures
        leaves(b).len() == pow2(d),
    decreases b,
{
    match b {
        BDD::L(_) => {
            assert(pow2(0) == 1);
        },
        BDD::N(node) => {
            lemma_leaves_len(*node.f, (d - 1) as nat);
            lemma_leaves_len(*node.t, (d - 1) as nat);
        },
    }
}

/// In a complete tree, following a full decision path reads exactly the
/// leaf the path indexes: together with the builder's contract, looking
/// assignment `i` up in the built diagram reads the table's entry `i`.
pub proof fn lemma_lookup_reads_leaf(b: BDD, d: nat, bs: Seq<bool>)
    requires
        complete(b, d),
        bs.len() == d,
    ensures
        leaves(b).len() == pow2(d),
        path_index(bs) < pow2(d),
        bdd_lookup(b, bs) == leaves(b)[path_index(bs) as int],
    decreases b,
{
    lemma_leaves_len(b, d);
    lemma_path_index_bound(bs);
    match b {
        BDD::L(_) => {},
        BDD::N(node) => {
            let rest = bs.drop_first();
            lemma_leaves_len(*node.f, (d - 1) as nat);
            lemma_leaves_len(*node.t, (d - 1) as nat);
            lemma_path_index_bound(rest);
            if bs[0] {
                lemma_lookup_reads_leaf(*node.t, (d - 1) as nat, rest);
                assert(leaves(b)[path_index(bs) as int] == leaves(*node.t)[path_index(
                    rest,
                ) as int]);
            } else {
                lemma_lookup_reads_leaf(*node.f, (d - 1) as nat, rest);
                assert(leaves(b)[path_index(bs) as int] == leaves(*node.f)[path_index(
                    rest,
                ) as int]);
            }
        },
    }
}

/// Powers of two multiply by adding exponents.
proof fn lemma_pow2_add(a: nat, b: nat)
    ensures
        pow2(a) * pow2(b) == pow2(a + b),
    decreases a,
{
    if a == 0 {
        assert(pow2(0) == 1);
    } else {
        lemma_pow2_add((a - 1) as nat, b);
        assert(pow2(a) * pow2(b) == 2 * (pow2((a - 1) as nat) * pow2(b)))
            by (nonlinear_arith)
            requires
                pow2(a) == 2 * pow2((a - 1) as nat),
        ;
    }
}

/// A deep copy of a subtree.
fn clone_bdd(b: &BDD) -> (r: Box<BDD>)
    ensures
        *r == *b,
    decreases *b,
{
    match b {
        BDD::L(leaf) => Box::new(BDD::L(Leaf { label: leaf.label })),
        BDD::N(node) => Box::new(
            BDD::N(Node { f: clone_bdd(&node.f), t: clone_bdd(&node.t) }),
        ),
    }
}

/// Structural equality of two subtrees.
fn same_bdd(a: &BDD, b: &BDD) -> (r: bool)
    ensures
        r == (*a == *b),
    decreases *a,
{
    match (a, b) {
        (BDD::L(x), BDD::L(y)) => x.label == y.label,
        (BDD::N(x), BDD::N(y)) => same_bdd(&x.f, &y.f) && same_bdd(&x.t, &y.t),
        _ => false,
    }
}

/// The structural reduction: a node whose branches are equal collapses
/// to its branch; any other node keeps its shape with both branches
/// reduced.
pub open spec fn reduce_spec(b: BDD) -> BDD
    decreases b,
{
    match b {
        BDD::L(_) => b,
        BDD::N(node) => if *node.f == *node.t {
            *node.f
        } else {
            BDD::N(
                Node {
                    f: Box::new(reduce_spec(*node.f)),
                    t: Box::new(reduce_spec(*node.t)),
                },
            )
        },
    }
}

impl BDD {
    /// Build the complete decision tree of depth `n` over a truth table
    /// of 2^n entries, layer by layer from the leaves: entry `i` of a
    /// layer covers the table slice of its subtree. The finished tree is
    /// complete of depth `n` and its leaves read back exactly the table.
    pub fn new(n: usize, table: &[bool]) -> (r: Box<BDD>)
        requires
            table@.len() == pow2(n as nat),
        ensures
            complete(*r, n as nat),
            leaves(*r) == table@,
    {
        let mut next: Vec<Box<BDD>> = Vec::new();
        let mut i: usize = 0;
        while i < table.len()
            invariant
                i <= table@.len(),
                next@.len() == i,
                forall|k: int|
                    0 <= k < i ==> complete(*(#[trigger] next@[k]), 0) && leaves(*next@[k])
                        == table@.subrange(k, k + 1),
            decreases table@.len() - i,
        {
            next.push(Box::new(BDD::L(Leaf { label: table[i] })));
            proof {
                assert(leaves(*next@[i as int]) =~= table@.subrange(i as int, i as int + 1));
            }
            i = i + 1;
        }
        let mut width = table.len();
        let ghost mut layer: nat = 0;
        proof {
            assert(pow2(0) == 1);
            assert(width == pow2((n as nat - layer) as nat));
        }
        while width > 1
            invariant
                table@.len() == pow2(n as nat),
                layer <= n as nat,
                width == pow2((n as nat - layer) as nat),
                next@.len() == width,
                forall|k: int|
                    0 <= k < width ==> complete(*(#[trigger] next@[k]), layer) && leaves(
                        *next@[k],
                    ) == table@.subrange(k * pow2(layer), (k + 1) * pow2(layer)),
            decreases width,
        {
            proof {
                assert(layer < n as nat) by {
                    if layer == n as nat {
                        assert(pow2(0) == 1);
                    }
                }
                assert(pow2((n as nat - layer) as nat) == 2 * pow2(
                    (n as nat - layer - 1) as nat,
                ));
            }
            let prev = next;
            let half = width / 2;
            let mut next2: Vec<Box<BDD>> = Vec::new();
            let mut j: usize = 0;
            while j < half
                invariant
                    half * 2 == width,
                    width == prev@.len(),
                    j <= half,
                    next2@.len() == j,
                    table@.len() == pow2(n as nat),
                    layer <= n as nat,
                    width == pow2((n as nat - layer) as nat),
                    forall|k: int|
                        0 <= k < width ==> complete(*(#[trigger] prev@[k]), layer) && leaves(
                            *prev@[k],
                        ) == table@.subrange(k * pow2(layer), (k + 1) * pow2(layer)),
                    forall|k: int|
                        0 <= k < j ==> complete(*(#[trigger] next2@[k]), layer + 1) && leaves(
                            *next2@[k],
                        ) == table@.subrange(k * pow2(layer + 1), (k + 1) * pow2(layer + 1)),
                decreases half - j,
            {
                let fb = clone_bdd(&prev[2 * j]);
                let tb = clone_bdd(&prev[2 * j + 1]);
                next2.push(Box::new(BDD::N(Node { f: fb, t: tb })));
                proof {
                    let p = pow2(layer) as int;
                    let jj = j as int;
                    crate::qmc::lemma_pow2_pos(layer);
                    lemma_pow2_add((n as nat - layer) as nat, layer);
                    assert(leaves(*next2@[jj]) == leaves(*prev@[2 * jj]) + leaves(
                        *prev@[2 * jj + 1],
                    ));
                    assert(0 <= 2 * jj * p && 2 * jj * p <= (2 * jj + 1) * p && (2 * jj + 1) * p
                        <= (2 * jj + 2) * p) by (nonlinear_arith)
                        requires
                            0 <= jj,
                            0 < p,
                    ;
                    assert(table@.subrange(2 * jj * p, (2 * jj + 1) * p) + table@.subrange(
                        (2 * jj + 1) * p,
                        (2 * jj + 2) * p,
                    ) =~= table@.subrange(2 * jj * p, (2 * jj + 2) * p)) by {
                        assert((2 * jj + 2) * p <= table@.len()) by (nonlinear_arith)
                            requires
                                0 <= jj,
                                jj < half,
                                half * 2 == width,
                                0 < p,
                                width * p <= pow2(n as nat),
                                table@.len() == pow2(n as nat),
                        {
                        }
                    }
                    assert(pow2(layer + 1) == 2 * pow2(layer));
                    assert(jj * (2 * p) == 2 * jj * p && (jj + 1) * (2 * p) == (2 * jj + 2) * p)
                        by (nonlinear_arith);
                    assert(leaves(*next2@[jj]) == table@.subrange(
                        jj * pow2(layer + 1),
                        (jj + 1) * pow2(layer + 1),
                    ));
                }
                j = j + 1;
            }
            next = next2;
            width = half;
            proof {
                layer = layer + 1;
            }
        }
        proof {
            crate::qmc::lemma_pow2_pos((n as nat - layer) as nat);
            assert(width == 1);
            assert(layer == n as nat) by {
                if layer < n as nat {
                    assert(pow2((n as nat - layer) as nat) == 2 * pow2(
                        (n as nat - layer - 1) as nat,
                    ));
                    crate::qmc::lemma_pow2_pos((n as nat - layer - 1) as nat);
                }
            }
            assert(leaves(*next@[0]) == table@.subrange(0, pow2(layer) as int));
            assert(table@.subrange(0, pow2(n as nat) as int) =~= table@);
        }
        let r = clone_bdd(&next[0]);
        r
    }

    /// Reduce the diagram structurally: a node whose two branches are
    /// equal is replaced by that branch; every other node is kept with
    /// its branches reduced. The result is exactly `reduce_spec` of the
    /// input.
    pub fn reduce(bdd: &Box<BDD>) -> (r: Box<BDD>)
        ensures
            *r == reduce_spec(**bdd),
        decreases **bdd,
    {
        match &**bdd {
            BDD::N(node) => {
                if same_bdd(&node.f, &node.t) {
                    clone_bdd(&node.f)
                } else {
                    Box::new(BDD::N(Node { f: BDD::reduce(&node.f), t: BDD::reduce(&node.t) }))
                }
            },
            BDD::L(leaf) => Box::new(BDD::L(Leaf { label: leaf.label })),
        }
    }
}

} // verus!
