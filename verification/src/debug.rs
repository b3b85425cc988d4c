//! Node records gathered for rendering an ensemble.

use vstd::prelude::*;
use crate::ptr::{PBack, PRNode, PTNode};

verus! {

/// A temporal node as the renderer records it: its own back reference, the
/// one of its driver, and the node itself.
#[derive(Clone, Copy, Debug, PartialEq, Eq, Structural)]
pub struct TNodeTmp {
    p_self: PBack,
    p_driver: PBack,
    p_tnode: PTNode,
}

impl TNodeTmp {
    pub closed spec fn self_back(&self) -> PBack {
        self.p_self
    }

    pub closed spec fn driver_back(&self) -> PBack {
        self.p_driver
    }

    pub closed spec fn tnode(&self) -> PTNode {
        self.p_tnode
    }

    pub fn new(p_self: PBack, p_driver: PBack, p_tnode: PTNode) -> (r: Self)
        ensures
            r.self_back() == p_self,
            r.driver_back() == p_driver,
            r.tnode() == p_tnode,
    {
        TNodeTmp { p_self, p_driver, p_tnode }
    }
}

/// An external bit as the renderer records it: its own back reference, its
/// equivalence, the node, and the bit's place in it.
#[derive(Clone, Copy, Debug, PartialEq, Eq, Structural)]
pub struct RNodeTmp {
    p_self: PBack,
    p_equiv: PBack,
    p_rnode: PRNode,
    i: u64,
}

impl RNodeTmp {
    pub closed spec fn self_back(&self) -> PBack {
        self.p_self
    }

    pub closed spec fn equiv(&self) -> PBack {
        self.p_equiv
    }

    pub closed spec fn rnode(&self) -> PRNode {
        self.p_rnode
    }

    pub closed spec fn bit(&self) -> u64 {
        self.i
    }

    pub fn new(p_self: PBack, p_equiv: PBack, p_rnode: PRNode, i: u64) -> (r: Self)
        ensures
            r.self_back() == p_self,
            r.equiv() == p_equiv,
            r.rnode() == p_rnode,
            r.bit() == i,
    {
        RNodeTmp { p_self, p_equiv, p_rnode, i }
    }
}

} // verus!
