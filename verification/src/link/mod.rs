pub mod advanced;
pub mod commands;
pub mod types;

pub use types::{Assumption, AssumptionStatus, Edge, EdgeStatus, FeedbackEdge, FeedbackLoopType, Logic, Operator};
