//! Whole-program worst-case stack usage: a call graph built from a symbol
//! table, a summary of the compiler's intermediate representation and facts
//! decoded from machine code, and the propagation of per-function stack
//! bounds over it.

pub mod analysis;
pub mod bounds;
pub mod builder;
pub mod components;
pub mod diag;
pub mod filter;
pub mod graph;
pub mod indirect;
pub mod intrinsics;
pub mod ir;
pub mod laws;
pub mod machine;
pub mod model;
pub mod names;
pub mod propagate;
pub mod reconcile;
pub mod report;
pub mod shorten;
pub mod sums;
pub mod symbols;
pub mod table;
pub mod target;
pub mod text;
pub mod usage;
