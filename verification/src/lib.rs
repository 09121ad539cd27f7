//! Deterministic engine for the Logical Thinking Process causal graph.
pub mod assumptions;
pub mod clock;
pub mod errors;
pub mod history;
pub mod knowledge;
pub mod link;
pub mod macro_assume;
pub mod macro_edge;
pub mod nbr;
pub mod node;
pub mod output;
pub mod path;
pub mod status;
pub mod storage;
pub mod strutil;
pub mod trace;
pub mod tree;
pub mod validate;
pub mod workspace;
