//! Call-graph support library: string interning, lexical scopes, scope
//! collection over a Python syntax tree, compact edge sets and graph writers.

pub mod compact_edges;
pub mod intern;
pub mod node;
pub mod table;
pub mod syntax;
pub mod prepass;
pub mod scope;
pub mod sorting;
pub mod text;
pub mod visgraph;
pub mod writer;
