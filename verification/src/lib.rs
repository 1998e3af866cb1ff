//! Information-flow analysis over a model of Rust's MIR.
//!
//! The library computes which places and program locations influence each
//! other: alias sets from borrow facts, a forward dataflow fixpoint of a
//! dependency transfer function, and forward/backward slices built from it.

pub mod indexed;
pub mod mir;
pub mod ty;
pub mod aliases;
pub mod body;
pub mod flow;
pub mod transfer;
pub mod fixpoint;
pub mod dependencies;
pub mod loans;
pub mod domain;
pub mod config;
pub mod spans;
pub mod slicing;
pub mod effects;
pub mod calls;
pub mod program;
pub mod driver;
pub mod launch;
pub mod scrape;
pub mod maps;
