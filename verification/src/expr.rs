//! Infix boolean expressions over named single-letter terms, lowered
//! into the AND/NOT-only term graph. OR and XOR are expanded here: the
//! term graph never holds them.

use vstd::prelude::*;
use crate::aig;
use crate::aig::{AIG, Inv, Sym};

verus! {

/// A boolean expression over single-letter terms with NOT, OR, AND and
/// XOR.
#[derive(Debug)]
pub enum Expr {
    Term(char),
    Not(Box<Expr>),
    Or(Box<Expr>, Box<Expr>),
    And(Box<Expr>, Box<Expr>),
    Xor(Box<Expr>, Box<Expr>),
}

impl Expr {
    /// Well-formed terms: single letters at or above the first term
    /// name, whose index is the distance from it.
    pub open spec fn wf(self) -> bool
        decreases self,
    {
        match self {
            Expr::Term(c) => c as usize >= 'A' as usize,
            Expr::Not(e) => e.wf(),
            Expr::Or(l, r) => l.wf() && r.wf(),
            Expr::And(l, r) => l.wf() && r.wf(),
            Expr::Xor(l, r) => l.wf() && r.wf(),
        }
    }

    /// The value of the expression under an assignment, one boolean per
    /// term index.
    pub open spec fn eval_spec(self, syms: Seq<bool>) -> bool
        decreases self,
    {
        match self {
            Expr::Term(c) => syms[c as usize - 'A' as usize],
            Expr::Not(e) => !e.eval_spec(syms),
            Expr::Or(l, r) => l.eval_spec(syms) || r.eval_spec(syms),
            Expr::And(l, r) => l.eval_spec(syms) && r.eval_spec(syms),
            Expr::Xor(l, r) => l.eval_spec(syms) != r.eval_spec(syms),
        }
    }

    /// One past the largest term index used.
    pub open spec fn sym_bound(self) -> nat
        decreases self,
    {
        match self {
            Expr::Term(c) => (c as usize - 'A' as usize + 1) as nat,
            Expr::Not(e) => e.sym_bound(),
            Expr::Or(l, r) => if l.sym_bound() <= r.sym_bound() {
                r.sym_bound()
            } else {
                l.sym_bound()
            },
            Expr::And(l, r) => if l.sym_bound() <= r.sym_bound() {
                r.sym_bound()
            } else {
                l.sym_bound()
            },
            Expr::Xor(l, r) => if l.sym_bound() <= r.sym_bound() {
                r.sym_bound()
            } else {
                l.sym_bound()
            },
        }
    }

    /// Lower the expression into the AND/NOT-only term graph: OR becomes
    /// NOT(AND(NOT, NOT)), XOR becomes the disjunction of the two
    /// one-sided conjunctions. The graph computes the same function as
    /// the expression and reads the same terms.
    pub fn to_aig(&self) -> (out: Box<AIG>)
        requires
            self.wf(),
        ensures
            out.sym_bound() == self.sym_bound(),
            forall|syms: Seq<bool>|
                self.sym_bound() <= syms.len() ==> (#[trigger] out.eval_spec(syms))
                    == self.eval_spec(syms),
        decreases *self,
    {
        match self {
            Expr::Term(c) => Box::new(AIG::G(Sym((*c as usize) - ('A' as usize)))),
            Expr::Not(e) => {
                let a = e.to_aig();
                let ghost ag = *a;
                let out = Box::new(AIG::I(Inv(a)));
                proof {
                    assert forall|syms: Seq<bool>| self.sym_bound() <= syms.len() implies (
                    #[trigger] out.eval_spec(syms)) == self.eval_spec(syms) by {
                        assert(ag.eval_spec(syms) == e.eval_spec(syms));
                    }
                }
                out
            },
            Expr::And(l, r) => {
                let a = l.to_aig();
                let b = r.to_aig();
                let ghost ag = *a;
                let ghost bg = *b;
                let out = Box::new(AIG::A(aig::And(a, b)));
                proof {
                    assert forall|syms: Seq<bool>| self.sym_bound() <= syms.len() implies (
                    #[trigger] out.eval_spec(syms)) == self.eval_spec(syms) by {
                        assert(ag.eval_spec(syms) == l.eval_spec(syms));
                        assert(bg.eval_spec(syms) == r.eval_spec(syms));
                    }
                }
                out
            },
            Expr::Or(l, r) => {
                let a = l.to_aig();
                let b = r.to_aig();
                let ghost ag = *a;
                let ghost bg = *b;
                let out = Box::new(
                    AIG::I(
                        Inv(
                            Box::new(
                                AIG::A(
                                    aig::And(Box::new(AIG::I(Inv(a))), Box::new(AIG::I(Inv(b)))),
                                ),
                            ),
                        ),
                    ),
                );
                proof {
                    assert forall|syms: Seq<bool>| self.sym_bound() <= syms.len() implies (
                    #[trigger] out.eval_spec(syms)) == self.eval_spec(syms) by {
                        reveal_with_fuel(AIG::eval_spec, 6);
                        assert(ag.eval_spec(syms) == l.eval_spec(syms));
                        assert(bg.eval_spec(syms) == r.eval_spec(syms));
                    }
                    assert(out.sym_bound() == self.sym_bound()) by {
                        reveal_with_fuel(AIG::sym_bound, 6);
                    }
                }
                out
            },
            Expr::Xor(l, r) => {
                let la = l.to_aig();
                let lb = l.to_aig();
                let ra = r.to_aig();
                let rb = r.to_aig();
                let ghost lag = *la;
                let ghost lbg = *lb;
                let ghost rag = *ra;
                let ghost rbg = *rb;
                let t1 = Box::new(AIG::A(aig::And(la, Box::new(AIG::I(Inv(ra))))));
                let t2 = Box::new(AIG::A(aig::And(rb, Box::new(AIG::I(Inv(lb))))));
                let out = Box::new(
                    AIG::I(
                        Inv(
                            Box::new(
                                AIG::A(
                                    aig::And(Box::new(AIG::I(Inv(t1))), Box::new(AIG::I(Inv(t2)))),
                                ),
                            ),
                        ),
                    ),
                );
                proof {
                    assert forall|syms: Seq<bool>| self.sym_bound() <= syms.len() implies (
                    #[trigger] out.eval_spec(syms)) == self.eval_spec(syms) by {
                        reveal_with_fuel(AIG::eval_spec, 8);
                        assert(lag.eval_spec(syms) == l.eval_spec(syms));
                        assert(lbg.eval_spec(syms) == l.eval_spec(syms));
                        assert(rag.eval_spec(syms) == r.eval_spec(syms));
                        assert(rbg.eval_spec(syms) == r.eval_spec(syms));
                    }
                    assert(out.sym_bound() == self.sym_bound()) by {
                        reveal_with_fuel(AIG::sym_bound, 8);
                    }
                }
                out
            },
        }
    }
}

} // verus!
