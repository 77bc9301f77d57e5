//! Root-cause reasoning over facts and their causes.
//!
//! A [`Fact`] is a claim that can be checked against a read-only context and
//! that may name a [`Cause`] which would explain why it is false. Starting
//! from a cause that does not hold, [`traverse`] follows these explanations
//! and returns the graph of everything that is false, together with the true
//! facts at which the search stopped.
//!
//! The engine is in four parts:
//!
//! - [`cause`] holds the data: facts, causes and checks, each with its
//!   mathematical value.
//! - [`eval`] says what evaluating a cause means, over maps and sequences,
//!   and [`evaluate`] is the code that does it, with the memo of [`table`].
//! - [`walk`] says what the walk over a finished memo reports, and [`prune`]
//!   and [`graph`] are the code that does it; the shape of the graph is kept
//!   by `petgraph`, behind the contracts of [`digraph`].
//! - [`laws`] and [`bounds`] state and prove what holds of every traversal.
//!
//! Beside the engine stand a few building blocks of the systems that it is
//! used to diagnose: state machines whose actions are recorded ([`stef`]),
//! the bytes of a gossiped bloom filter ([`gossip`]), and the state of keys
//! in a registry ([`dpki`]).

pub mod bounds;
pub mod cause;
pub mod digraph;
pub mod dpki;
pub mod eval;
pub mod evaluate;
pub mod gossip;
pub mod graph;
pub mod laws;
pub mod prune;
pub mod stef;
pub mod table;
pub mod walk;

pub use cause::{Cause, CauseView, Check, CheckView, Fact};
pub use graph::{traverse, CausalGraph, Traversal};
