//! Routing a program onto a target: paths through the channeling graph,
//! the configurable parts of its edges, and embeddings.

pub mod cedge;
pub mod embed;
pub mod path;
pub mod router;
