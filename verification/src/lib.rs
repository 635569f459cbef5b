//! Boolean-function minimization over AND/NOT gate netlists.
//!
//! The crate resolves a gate netlist into a shared acyclic term graph
//! (`aag`, `aig`), evaluates it into on-set / off-set implicant vectors
//! (`aig::enumerate`), and reduces an implicant set to a near-minimal
//! covering set of prime implicants with the Quine-McCluskey consensus
//! algorithm (`qmc`). An infix boolean expression front end feeds the
//! same term graph (`expr`); a binary-decision-diagram construction
//! (`bdd`) reads the truth table directly.

use vstd::prelude::*;

pub mod aag;
pub mod aig;
pub mod bdd;
pub mod expr;
pub mod qmc;

verus! {

/// The fatal conditions of the core: every failure reflects a structural
/// property of the input or a resource bound, never a transient
/// condition.
#[derive(Debug)]
pub enum Error {
    /// A gate or output literal refers to signal identifiers that can
    /// never be resolved: undefined somewhere or cyclically defined. The
    /// unresolved identifiers are listed.
    Unresolved(Vec<usize>),
    /// A signal identifier is defined more than once, as input and/or
    /// gate output.
    Redefined(usize),
    /// The requested input count exceeds the exhaustive-enumeration
    /// bound.
    TooManyInputs,
}

} // verus!
