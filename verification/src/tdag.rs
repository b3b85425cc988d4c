//! The optimization and simplification queues of the older node DAG.

use vstd::prelude::*;
use crate::ptr::{PBack, PTNode};

verus! {

/// A cost that fits in a byte.
#[derive(Clone, Copy, Debug, PartialEq, Eq, Structural, PartialOrd, Ord, Hash)]
pub struct CostU8(pub u8);

/// These variants must occur generally in order of easiest and most affecting
/// to hardest and computationally expensive, so that things like removing
/// unused nodes happens before wasting time on the harder optimizations.
#[derive(Clone, Copy, Debug, PartialEq, Eq, Structural, PartialOrd, Ord, Hash)]
pub enum Optimization {
    /// Removes an entire equivalence class because it is unused
    RemoveEquiv(PBack),
    /// If an equivalence is an identity function, any dependents should use its
    /// inputs instead. This is high priority because the principle source of a
    /// value needs to be known for various optimizations to work such as LUT
    /// input duplicates.
    ForwardEquiv(PBack),
    /// Removes all `TNode`s from an equivalence that has had a constant
    /// assigned to it, and notifies all referents.
    ConstifyEquiv(PBack),
    /// Removes a `TNode` because there is at least one other `TNode` in the
    /// equivalence that is stricly better
    RemoveTNode(PBack),
    /// If a backref is removed, investigate this equivalence. Note that
    /// `InvestigateUsed`s overwrite each other when multiple ones are fired on
    /// the same equivalence.
    InvestigateUsed(PBack),
    /// If an input was constified
    InvestigateConst(PTNode),
    /// The optimization state that equivalences are set to after the
    /// preinvestigation finds nothing
    InvestigateEquiv0(PBack),
}

/// A queue of optimizations, least first, run while there is gas left.
#[derive(Clone, Debug)]
pub struct Optimizer {
    pub gas: u64,
    pub optimizations: Vec<Optimization>,
}

impl Optimizer {
    pub fn new(gas: u64) -> (r: Self)
        ensures
            r.gas == gas,
            r.optimizations@ == Seq::<Optimization>::empty(),
    {
        Optimizer { gas, optimizations: Vec::new() }
    }
}

/// These kinds must occur generally in order of easiest and most affecting to
/// hardest, so that things like removing unused nodes happens before wasting
/// time on the harder optimizations that may be wastes of something that can
/// be handled better by a simpler one.
#[derive(Clone, Copy, Debug, PartialEq, Eq, Structural, PartialOrd, Ord, Hash)]
pub enum SimplifyKind {
    RemoveUnused,
    ConstPropogate,
}

/// One simplification to run.
#[derive(Clone, Copy, Debug, PartialEq, Eq, Structural, PartialOrd, Ord, Hash)]
pub struct Simplification {
    pub kind: SimplifyKind,
}

} // verus!
