//! A typed dataflow-graph construction and execution engine.
//!
//! Users assemble a directed graph of computation nodes, each node declaring
//! an input and an output type identity, wire nodes together with type-checked
//! edges, designate an output node, and compile the mutable graph into an
//! immutable, ordered pipeline that accepts one external input value and
//! produces one output value per call.

pub mod value;
pub mod compute;
pub mod operations;
pub mod graph;
pub mod reach;
pub mod com_graph;
pub mod laws;
pub mod prelude;
