pub mod commands;
pub mod compare;
pub mod types;
pub mod walk;

pub use types::{MacroAssumption, MacroEdge, MacroEdgeStatus, NbrBranch, NodeRef, Tree, TreeLogic, TreeType};
