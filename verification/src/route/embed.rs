//! Embeddings of the program in the target.

use vstd::prelude::*;
use crate::ptr::{PEquiv, PLNode, PMapping};
use crate::route::path::{HyperPath, NodeOrEdge};

verus! {

/// Where a program node is embedded: the hyperpath it takes on the target.
#[derive(Clone, Debug)]
pub struct NodeEmbed {
    pub program_node: PEquiv,
    pub hyperpath: HyperPath,
    pub first_embedded_by: PMapping,
}

impl NodeEmbed {
    pub fn new(program_node: PEquiv, hyperpath: HyperPath, first_embedded_by: PMapping) -> (r: Self)
        ensures
            r.program_node == program_node,
            r.hyperpath == hyperpath,
            r.first_embedded_by == first_embedded_by,
    {
        NodeEmbed { program_node, hyperpath, first_embedded_by }
    }
}

/// Where a program edge is embedded: a node or an edge of the target.
#[derive(Clone, Copy, Debug, PartialEq, Eq, Structural)]
pub struct EdgeEmbed {
    pub program_edge: PLNode,
    pub target: NodeOrEdge,
}

impl EdgeEmbed {
    pub fn new(program_edge: PLNode, target: NodeOrEdge) -> (r: Self)
        ensures
            r.program_edge == program_edge,
            r.target == target,
    {
        EdgeEmbed { program_edge, target }
    }
}

} // verus!
