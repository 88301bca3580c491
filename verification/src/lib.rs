//! Versioned term graphs kept in step with an append-only reasoning engine.
//!
//! A host program builds terms as nodes that refer to their children by
//! symbol. The reasoning engine takes assertions as text and never forgets
//! one, so a node cannot be changed in place: changing it gives it a new
//! version under a new symbol, and with it every current node that reaches
//! it through its children. The new versions are sent to the engine in an
//! order in which every symbol is bound before it is used.
//!
//! The library writes the texts for the engine and decides what follows
//! from the engine's answers. Handing a text to the engine is left to the
//! program: it makes the call and reports the answer back.
//!
//! - [`sym`], [`syms`], [`symset`]: symbols, the counters that mint them, and
//!   lists and sets of them.
//! - [`node`]: nodes and the record the working graph keeps for each.
//! - [`store`], [`graph`]: the working graph, with its invariant.
//! - [`reach`]: the searches for the current ancestors and descendants of a
//!   node.
//! - [`topo`]: the order in which a set of nodes is sent.
//! - [`version`]: the step that gives a set of nodes new versions.
//! - [`rx`]: the eager protocol, which carries every change through at once.
//! - [`staged`], [`rx_vt`]: the staged protocol, which collects changes until
//!   a commit.
//! - [`tx_minimal`]: the minimal variant, which only forwards assertions.
//! - [`backend`], [`sorts`], [`emit`], [`error`]: the record of the exchange
//!   with the reasoning engine, the declarations of a schema, the text of a
//!   round, and the refusals.
//! - [`shape`]: what the eager protocol keeps of the graph beyond the
//!   graph's invariant.
//! - [`laws`]: what holds across the operations.

pub mod backend;
pub mod emit;
pub mod error;
pub mod graph;
pub mod laws;
pub mod node;
pub mod reach;
pub mod rx;
pub mod rx_vt;
pub mod shape;
pub mod sorts;
pub mod staged;
pub mod store;
pub mod sym;
pub mod syms;
pub mod symset;
pub mod topo;
pub mod tx_minimal;
pub mod version;
