//! Static call-graph extraction over a module's syntax tree, and structural
//! analyses of the resulting graph.
//!
//! A module is a sequence of statements. Every top-level function-like
//! definition is a scope of its own; everything else at the top level belongs
//! to one synthetic scope. The graph maps each scope to the ordered sequence
//! of names it calls, and every called name is itself a node of the graph.

pub mod ast;
pub mod walk;
pub mod graph;
pub mod extract;
pub mod analysis;
