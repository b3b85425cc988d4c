//! What the program's external bits are mapped to on the target.

use vstd::prelude::*;
use crate::ptr::{PCNode, PExternal};

verus! {

/// A target external bit, with the channel nodes of its bits.
#[derive(Clone, Debug, PartialEq, Eq, PartialOrd, Ord)]
pub struct MappingTarget {
    pub p_external: PExternal,
    pub p_cnodes: Vec<Option<PCNode>>,
}

/// The corresponding program `PExternal` is in the key that this `Mapping`
/// should be uniquely associated with.
///
/// Usually only one of the following has a single `MappingTarget`, but there
/// are cases like copying a bit that all happens in a single program `CNode`
/// but needs to be mapped to differing target `CNode`s, so in general it can
/// map to a single target source and multiple target sinks.
#[derive(Clone, Debug)]
pub struct Mapping {
    pub target_source: Option<MappingTarget>,
    pub target_sinks: Vec<MappingTarget>,
}

} // verus!
