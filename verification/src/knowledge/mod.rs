pub mod resolve;
pub mod commands;
pub mod types;

pub use types::{
    Confidence, KnowledgeItem, KnowledgeLink, KnowledgeRelation, KnowledgeSource, KnowledgeStatus,
    KnowledgeType,
};
