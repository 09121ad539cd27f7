pub mod clr_lint;
pub mod commands;
pub mod types;

pub use types::{EpistemicStatus, Node, NodeMetadata, NodeStatus, NodeType};
