//! Causal edges, their assumptions, and feedback edges.
use vstd::prelude::*;
use crate::strutil::{clone_strings, views};

verus! {

#[derive(Debug, Clone, Copy, PartialEq, Eq, Structural)]
pub enum Operator {
    Single,
    And,
    Or,
    Mag,
    Xor,
}

#[derive(Debug, Clone, Copy, PartialEq, Eq, Structural)]
pub enum Logic {
    Sufficiency,
    Necessity,
}

#[derive(Debug, Clone, Copy, PartialEq, Eq, Structural)]
pub enum EdgeStatus {
    Active,
    Broken,
    Superseded,
    NeedsReview,
}

#[derive(Debug, Clone, Copy, PartialEq, Eq, Structural)]
pub enum AssumptionStatus {
    Valid,
    Invalid,
    NeedsReview,
}

#[derive(Debug, Clone)]
pub struct Assumption {
    pub id: String,
    pub status: AssumptionStatus,
    pub text: String,
}

pub struct AssumptionView {
    pub id: Seq<char>,
    pub status: AssumptionStatus,
    pub text: Seq<char>,
}

impl View for Assumption {
    type V = AssumptionView;

    open spec fn view(&self) -> AssumptionView {
        AssumptionView { id: self.id@, status: self.status, text: self.text@ }
    }
}

/// A causal edge. `from` are its causes, `to` its effect. The magnitude
/// `weight`, when present, is held as the IEEE-754 bit pattern of the number.
#[derive(Debug, Clone)]
pub struct Edge {
    pub id: String,
    pub from: Vec<String>,
    pub to: String,
    pub operator: Operator,
    pub weight: Option<u64>,
    pub status: EdgeStatus,
    pub logic: Logic,
    pub assumptions: Vec<Assumption>,
}

pub struct EdgeView {
    pub id: Seq<char>,
    pub from: Seq<Seq<char>>,
    pub to: Seq<char>,
    pub operator: Operator,
    pub weight: Option<u64>,
    pub status: EdgeStatus,
    pub logic: Logic,
    pub assumptions: Seq<AssumptionView>,
}

pub open spec fn assumption_views(v: Seq<Assumption>) -> Seq<AssumptionView> {
    v.map_values(|a: Assumption| a@)
}

impl View for Edge {
    type V = EdgeView;

    open spec fn view(&self) -> EdgeView {
        EdgeView {
            id: self.id@,
            from: views(self.from@),
            to: self.to@,
            operator: self.operator,
            weight: self.weight,
            status: self.status,
            logic: self.logic,
            assumptions: assumption_views(self.assumptions@),
        }
    }
}

pub open spec fn edge_views(v: Seq<Edge>) -> Seq<EdgeView> {
    v.map_values(|e: Edge| e@)
}

#[derive(Debug, Clone, Copy, PartialEq, Eq, Structural)]
pub enum FeedbackLoopType {
    Positive,
    Negative,
}

#[derive(Debug, Clone)]
pub struct FeedbackEdge {
    pub id: String,
    pub from: String,
    pub to: String,
    pub loop_type: FeedbackLoopType,
    pub label: Option<String>,
}

pub struct FeedbackEdgeView {
    pub id: Seq<char>,
    pub from: Seq<char>,
    pub to: Seq<char>,
    pub loop_type: FeedbackLoopType,
    pub label: Option<Seq<char>>,
}

pub open spec fn opt_view(o: Option<String>) -> Option<Seq<char>> {
    match o {
        Some(s) => Some(s@),
        None => None,
    }
}

impl View for FeedbackEdge {
    type V = FeedbackEdgeView;

    open spec fn view(&self) -> FeedbackEdgeView {
        FeedbackEdgeView {
            id: self.id@,
            from: self.from@,
            to: self.to@,
            loop_type: self.loop_type,
            label: opt_view(self.label),
        }
    }
}

pub open spec fn feedback_views(v: Seq<FeedbackEdge>) -> Seq<FeedbackEdgeView> {
    v.map_values(|e: FeedbackEdge| e@)
}

/// The IDs of the edges, in order.
pub open spec fn edge_ids(v: Seq<Edge>) -> Seq<Seq<char>> {
    v.map_values(|e: Edge| e.id@)
}

/// `i` is the first position at which `x` occurs in `ids`.
pub open spec fn first_at(ids: Seq<Seq<char>>, x: Seq<char>, i: int) -> bool {
    &&& 0 <= i < ids.len()
    &&& ids[i] == x
    &&& forall|k: int| 0 <= k < i ==> ids[k] != x
}

/// Position of the first edge with the given ID.
pub fn find_edge(edges: &Vec<Edge>, id: &str) -> (r: Option<usize>)
    ensures
        match r {
            Some(i) => first_at(edge_ids(edges@), id@, i as int),
            None => !edge_ids(edges@).contains(id@),
        },
{
    let key = String::from_str(id);
    let mut i: usize = 0;
    while i < edges.len()
        invariant
            i <= edges@.len(),
            key@ == id@,
            forall|k: int| 0 <= k < i ==> edge_ids(edges@)[k] != id@,
        decreases edges@.len() - i,
    {
        if edges[i].id == key {
            return Some(i);
        }
        i = i + 1;
    }
    proof {
        if edge_ids(edges@).contains(id@) {
            let k = choose|k: int| 0 <= k < edge_ids(edges@).len() && edge_ids(edges@)[k] == id@;
            assert(edge_ids(edges@)[k] != id@);
        }
    }
    None
}

/// A new active edge without weight or assumptions.
pub fn plain_edge(id: String, from: Vec<String>, to: String, operator: Operator, logic: Logic) -> (r: Edge)
    ensures
        r@ == (EdgeView {
            id: id@,
            from: views(from@),
            to: to@,
            operator,
            weight: None,
            status: EdgeStatus::Active,
            logic,
            assumptions: Seq::empty(),
        }),
{
    let r = Edge { id, from, to, operator, weight: None, status: EdgeStatus::Active, logic, assumptions: Vec::new() };
    assert(r@.assumptions =~= Seq::<AssumptionView>::empty());
    r
}

/// A copy of an assumption.
pub fn clone_assumption(a: &Assumption) -> (r: Assumption)
    ensures r@ == a@,
{
    Assumption { id: a.id.clone(), status: a.status, text: a.text.clone() }
}

/// A copy of a list of assumptions.
pub fn clone_assumptions(v: &Vec<Assumption>) -> (r: Vec<Assumption>)
    ensures assumption_views(r@) == assumption_views(v@),
{
    let mut r: Vec<Assumption> = Vec::new();
    let mut i: usize = 0;
    while i < v.len()
        invariant
            i <= v.len(),
            r@.len() == i,
            forall|k: int| 0 <= k < i ==> (#[trigger] r@[k])@ == v@[k]@,
        decreases v.len() - i,
    {
        r.push(clone_assumption(&v[i]));
        i = i + 1;
    }
    assert(assumption_views(r@) =~= assumption_views(v@));
    r
}

/// A copy of an edge.
pub fn clone_edge(e: &Edge) -> (r: Edge)
    ensures r@ == e@,
{
    let r = Edge {
        id: e.id.clone(),
        from: clone_strings(&e.from),
        to: e.to.clone(),
        operator: e.operator,
        weight: e.weight,
        status: e.status,
        logic: e.logic,
        assumptions: clone_assumptions(&e.assumptions),
    };
    assert(r@.from =~= e@.from);
    r
}

/// A copy of a list of edges.
pub fn clone_edges(v: &Vec<Edge>) -> (r: Vec<Edge>)
    ensures edge_views(r@) == edge_views(v@),
{
    let mut r: Vec<Edge> = Vec::new();
    let mut i: usize = 0;
    while i < v.len()
        invariant
            i <= v.len(),
            r@.len() == i,
            forall|k: int| 0 <= k < i ==> (#[trigger] r@[k])@ == v@[k]@,
        decreases v.len() - i,
    {
        r.push(clone_edge(&v[i]));
        i = i + 1;
    }
    assert(edge_views(r@) =~= edge_views(v@));
    r
}

/// A copy of a feedback edge.
pub fn clone_feedback(f: &FeedbackEdge) -> (r: FeedbackEdge)
    ensures r@ == f@,
{
    let label = match &f.label {
        Some(l) => Some(l.clone()),
        None => None,
    };
    FeedbackEdge { id: f.id.clone(), from: f.from.clone(), to: f.to.clone(), loop_type: f.loop_type, label }
}

/// A copy of a list of feedback edges.
pub fn clone_feedbacks(v: &Vec<FeedbackEdge>) -> (r: Vec<FeedbackEdge>)
    ensures feedback_views(r@) == feedback_views(v@),
{
    let mut r: Vec<FeedbackEdge> = Vec::new();
    let mut i: usize = 0;
    while i < v.len()
        invariant
            i <= v.len(),
            r@.len() == i,
            forall|k: int| 0 <= k < i ==> (#[trigger] r@[k])@ == v@[k]@,
        decreases v.len() - i,
    {
        r.push(clone_feedback(&v[i]));
        i = i + 1;
    }
    assert(feedback_views(r@) =~= feedback_views(v@));
    r
}

} // verus!
