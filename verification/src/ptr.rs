//! Generation counted arena handles. Each names an entry of one kind of
//! arena by its index and the generation the entry was made in.

use vstd::prelude::*;

verus! {

/// Handle to a back reference into an equivalence class.
#[derive(Clone, Copy, Debug, PartialEq, Eq, Structural, PartialOrd, Ord, Hash)]
pub struct PBack {
    pub inx: usize,
    pub gen: u64,
}

impl PBack {
    pub fn new(inx: usize, gen: u64) -> (r: Self)
        ensures
            r.inx == inx,
            r.gen == gen,
    {
        PBack { inx, gen }
    }
}

/// Handle to a lookup table node.
#[derive(Clone, Copy, Debug, PartialEq, Eq, Structural, PartialOrd, Ord, Hash)]
pub struct PLNode {
    pub inx: usize,
    pub gen: u64,
}

impl PLNode {
    pub fn new(inx: usize, gen: u64) -> (r: Self)
        ensures
            r.inx == inx,
            r.gen == gen,
    {
        PLNode { inx, gen }
    }
}

/// Handle to a temporal node.
#[derive(Clone, Copy, Debug, PartialEq, Eq, Structural, PartialOrd, Ord, Hash)]
pub struct PTNode {
    pub inx: usize,
    pub gen: u64,
}

impl PTNode {
    pub fn new(inx: usize, gen: u64) -> (r: Self)
        ensures
            r.inx == inx,
            r.gen == gen,
    {
        PTNode { inx, gen }
    }
}

/// Handle to a mimicking state.
#[derive(Clone, Copy, Debug, PartialEq, Eq, Structural, PartialOrd, Ord, Hash)]
pub struct PState {
    pub inx: usize,
    pub gen: u64,
}

impl PState {
    pub fn new(inx: usize, gen: u64) -> (r: Self)
        ensures
            r.inx == inx,
            r.gen == gen,
    {
        PState { inx, gen }
    }
}

/// Handle to a channel node.
#[derive(Clone, Copy, Debug, PartialEq, Eq, Structural, PartialOrd, Ord, Hash)]
pub struct PCNode {
    pub inx: usize,
    pub gen: u64,
}

impl PCNode {
    pub fn new(inx: usize, gen: u64) -> (r: Self)
        ensures
            r.inx == inx,
            r.gen == gen,
    {
        PCNode { inx, gen }
    }
}

/// Handle to a channel edge.
#[derive(Clone, Copy, Debug, PartialEq, Eq, Structural, PartialOrd, Ord, Hash)]
pub struct PCEdge {
    pub inx: usize,
    pub gen: u64,
}

impl PCEdge {
    pub fn new(inx: usize, gen: u64) -> (r: Self)
        ensures
            r.inx == inx,
            r.gen == gen,
    {
        PCEdge { inx, gen }
    }
}

/// Handle to a configuration bit.
#[derive(Clone, Copy, Debug, PartialEq, Eq, Structural, PartialOrd, Ord, Hash)]
pub struct PConfig {
    pub inx: usize,
    pub gen: u64,
}

impl PConfig {
    pub fn new(inx: usize, gen: u64) -> (r: Self)
        ensures
            r.inx == inx,
            r.gen == gen,
    {
        PConfig { inx, gen }
    }
}

/// Handle to a mapping.
#[derive(Clone, Copy, Debug, PartialEq, Eq, Structural, PartialOrd, Ord, Hash)]
pub struct PMapping {
    pub inx: usize,
    pub gen: u64,
}

impl PMapping {
    pub fn new(inx: usize, gen: u64) -> (r: Self)
        ensures
            r.inx == inx,
            r.gen == gen,
    {
        PMapping { inx, gen }
    }
}

/// Handle to a register node.
#[derive(Clone, Copy, Debug, PartialEq, Eq, Structural, PartialOrd, Ord, Hash)]
pub struct PRNode {
    pub inx: usize,
    pub gen: u64,
}

impl PRNode {
    pub fn new(inx: usize, gen: u64) -> (r: Self)
        ensures
            r.inx == inx,
            r.gen == gen,
    {
        PRNode { inx, gen }
    }
}

/// A `PBack` known to be the `ThisEquiv` key of its equivalence class.
#[derive(Clone, Copy, Debug, PartialEq, Eq, Structural, PartialOrd, Ord, Hash)]
pub struct PEquiv(pub PBack);

impl PEquiv {
    pub fn into_p_back(self) -> (r: PBack)
        ensures
            r == self.0,
    {
        self.0
    }
}

/// A handle for external use that maps to an internal register node.
#[derive(Clone, Copy, Debug, PartialEq, Eq, Structural, PartialOrd, Ord, Hash)]
pub struct PExternal {
    pub inx: u128,
}

} // verus!
