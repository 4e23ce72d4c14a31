//! An arithmetization transpiler: rewrites constraints of rank-1 shape
//! `A * B = C` over linear combinations of variables into a stream of hints
//! describing equivalent bounded fan-in gates, together with a small
//! vector-chunking helper.

pub mod field;
pub mod lc;
pub mod transpiler;
pub mod laws;
pub mod chunks;
pub mod adaptor;
