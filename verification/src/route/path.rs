//! Paths through the channeling graph.

use vstd::prelude::*;
use crate::ptr::{PBack, PCEdge, PCNode, PLNode};

verus! {

/// A node or an edge of the channeling graph.
#[derive(Clone, Copy, Debug, PartialEq, Eq, Structural)]
pub enum NodeOrEdge {
    Node(PCNode),
    Edge(PCEdge),
}

/// How an edge of a path is traversed.
#[derive(Clone, Copy, Debug, PartialEq, Eq, Structural, PartialOrd, Ord)]
pub enum EdgeKind {
    /// Edge through a `CEdge` between `CNode`s on the same level. The `usize`
    /// indicates which source is used.
    Transverse(PCEdge, usize),
    /// Edge to a higher level `CNode`
    Concentrate,
    /// Edge to a lower level `CNode`
    Dilute,
}

/// One step of a path.
#[derive(Clone, Copy, Debug, PartialEq, Eq, Structural)]
pub struct Edge {
    /// The method of traversal
    pub kind: EdgeKind,
    /// The incident the edge reaches, the concentration and
    /// dilution edges can easily be derived from this.
    pub to: PCNode,
}

impl Edge {
    pub fn new(kind: EdgeKind, to: PCNode) -> (r: Self)
        ensures
            r.kind == kind,
            r.to == to,
    {
        Edge { kind, to }
    }
}

/// A single path from a source to sink across multiple `CEdge`s
#[derive(Clone, Debug)]
pub struct Path {
    /// If `None`, then this is a necessary copy-to-output embedding, otherwise
    /// this is a `PBack` to a `Referent::Input`
    pub program_sink: Option<PBack>,
    /// the target sink is on the last edge
    pub edges: Vec<Edge>,
}

impl Path {
    pub fn new(program_sink: Option<PBack>, edges: Vec<Edge>) -> (r: Self)
        ensures
            r.program_sink == program_sink,
            r.edges@ == edges@,
    {
        Path { program_sink, edges }
    }

    /// Where the last edge goes, `None` only if the path is empty (which it
    /// should not be).
    pub fn target_sink(&self) -> (r: Option<PCNode>)
        ensures
            r == if self.edges@.len() == 0 {
                None::<PCNode>
            } else {
                Some(self.edges@.last().to)
            },
    {
        if self.edges.len() == 0 {
            None
        } else {
            Some(self.edges[self.edges.len() - 1].to)
        }
    }

    pub fn edges(&self) -> (r: &[Edge])
        ensures
            r@ == self.edges@,
    {
        self.edges.as_slice()
    }

    pub fn push(&mut self, edge: Edge)
        ensures
            final(self).program_sink == old(self).program_sink,
            final(self).edges@ == old(self).edges@.push(edge),
    {
        self.edges.push(edge)
    }
}

/// The "hyperpath" that a logical bit takes from a `source` node to one or
/// more `sink` nodes. Sinks can have different priorities.
#[derive(Clone, Debug)]
pub struct HyperPath {
    /// If `None`, then this is a necessary input embedding, otherwise this is
    /// driven by the output of the `PLNode`
    pub program_source: Option<PLNode>,
    pub target_source: PCNode,
    /// The paths to the sinks
    pub paths: Vec<Path>,
}

impl HyperPath {
    /// The paths to the sinks.
    pub open spec fn path_list(&self) -> Seq<Path> {
        self.paths@
    }

    pub fn new(program_source: Option<PLNode>, target_source: PCNode, paths: Vec<Path>) -> (r: Self)
        ensures
            r.program_source == program_source,
            r.target_source == target_source,
            r.path_list() == paths@,
    {
        HyperPath { program_source, target_source, paths }
    }

    pub fn push(&mut self, path: Path)
        ensures
            final(self).program_source == old(self).program_source,
            final(self).target_source == old(self).target_source,
            final(self).path_list() == old(self).path_list().push(path),
    {
        self.paths.push(path)
    }

    pub fn paths(&self) -> (r: &[Path])
        ensures
            r@ == self.path_list(),
    {
        self.paths.as_slice()
    }

    pub fn paths_mut(&mut self) -> (r: &mut [Path])
        ensures
            r@ == old(self).path_list(),
            final(self).path_list() == final(r)@,
            final(self).program_source == old(self).program_source,
            final(self).target_source == old(self).target_source,
    {
        self.paths.as_mut_slice()
    }
}

} // verus!
