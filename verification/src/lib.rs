//! The logic of a hardware design toolkit: lookup tables and their
//! reductions, the lowering of bit vector operations into lookup table
//! circuits, evaluation over partly unknown values, the ensemble of
//! equivalences and nodes with its optimizations, the lowering of states,
//! the optimizer's and the delayer's queues, permutations, a grid, a seeded
//! random number generator, and the data of the router.

pub mod lut;
pub mod ptr;
pub mod value;
pub mod error;
pub mod tnode;
pub mod lnode;
pub mod grid;
pub mod meta;
pub mod route;
pub mod optimize;
pub mod tdag;
pub mod debug;
pub mod render;
pub mod small_map;
pub mod stream;
pub mod rng;
pub mod perm;
pub mod lower_op;
pub mod state;
pub mod eval;
pub mod lower_state;
pub mod ensemble;
pub mod stator;
