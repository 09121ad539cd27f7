//! Knowledge Pool entities: evidence items linked to the causal graph.
use vstd::prelude::*;
use crate::link::types::opt_view;
use crate::strutil::views;

verus! {

/// Nature of a knowledge item.
#[derive(Debug, Clone, Copy, PartialEq, Eq, Structural)]
pub enum KnowledgeType {
    Measurement,
    Testimony,
    Hypothesis,
    Document,
    Observation,
    Derived,
}

/// Epistemic state of a knowledge item.
#[derive(Debug, Clone, Copy, PartialEq, Eq, Structural)]
pub enum KnowledgeStatus {
    Unverified,
    Verified,
    Refuted,
    Superseded,
}

/// Declared confidence level.
#[derive(Debug, Clone, Copy, PartialEq, Eq, Structural)]
pub enum Confidence {
    High,
    Medium,
    Low,
}

/// Kind of relation with a graph entity.
#[derive(Debug, Clone, Copy, PartialEq, Eq, Structural)]
pub enum KnowledgeRelation {
    Supports,
    Contradicts,
    Contextualizes,
}

/// Origin of a knowledge item (at least one of `uri` or `excerpt` must be
/// present).
#[derive(Debug, Clone)]
pub struct KnowledgeSource {
    pub uri: Option<String>,
    pub excerpt: Option<String>,
}

impl KnowledgeSource {
    /// Validates that at least one of uri or excerpt is present.
    pub fn is_valid(&self) -> (r: bool)
        ensures r == (self.uri is Some || self.excerpt is Some),
    {
        self.uri.is_some() || self.excerpt.is_some()
    }
}

/// Link to an entity of the causal graph.
#[derive(Debug, Clone)]
pub struct KnowledgeLink {
    pub target: String,
    pub relation: KnowledgeRelation,
}

/// Entity of the Knowledge Pool.
#[derive(Debug, Clone)]
pub struct KnowledgeItem {
    pub id: String,
    pub knowledge_type: KnowledgeType,
    pub label: String,
    pub status: KnowledgeStatus,
    pub confidence: Option<Confidence>,
    pub source: KnowledgeSource,
    pub captured: String,
    pub links: Vec<KnowledgeLink>,
    pub tags: Vec<String>,
}

pub struct KnowledgeItemView {
    pub id: Seq<char>,
    pub knowledge_type: KnowledgeType,
    pub label: Seq<char>,
    pub status: KnowledgeStatus,
    pub confidence: Option<Confidence>,
    pub uri: Option<Seq<char>>,
    pub excerpt: Option<Seq<char>>,
    pub captured: Seq<char>,
    pub links: Seq<(Seq<char>, KnowledgeRelation)>,
    pub tags: Seq<Seq<char>>,
}

impl View for KnowledgeItem {
    type V = KnowledgeItemView;

    open spec fn view(&self) -> KnowledgeItemView {
        KnowledgeItemView {
            id: self.id@,
            knowledge_type: self.knowledge_type,
            label: self.label@,
            status: self.status,
            confidence: self.confidence,
            uri: opt_view(self.source.uri),
            excerpt: opt_view(self.source.excerpt),
            captured: self.captured@,
            links: self.links@.map_values(|l: KnowledgeLink| (l.target@, l.relation)),
            tags: views(self.tags@),
        }
    }
}

} // verus!
