//! Rules specific to Evaporating Cloud (EC) trees.
use vstd::prelude::*;
use crate::link::types::Edge;
use crate::output::{context_get, ContextValue, ContextValueView, OutputError};
use crate::strutil::{cat3, decimal, has_id, owned, u64_to_decimal};
use crate::tree::types::NodeRef;

verus! {

/// The node reference carries the role `role`.
pub open spec fn has_role(n: NodeRef, role: Seq<char>) -> bool {
    n.role matches Some(r) && r@ == role
}

/// The attached nodes with a given role, in attachment order.
pub open spec fn with_role(nodes: Seq<NodeRef>, role: Seq<char>) -> Seq<NodeRef>
    decreases nodes.len(),
{
    if nodes.len() == 0 {
        seq![]
    } else {
        with_role(nodes.drop_last(), role) + if has_role(nodes.last(), role) { seq![nodes.last()] } else { seq![] }
    }
}

/// Some prerequisite node is a cause of `req` through an edge.
pub open spec fn has_prerequisite(nodes: Seq<NodeRef>, edges: Seq<Edge>, req: Seq<char>) -> bool {
    exists|p: int, i: int| 0 <= p < with_role(nodes, "prerequisite"@).len() && 0 <= i < edges.len()
        && has_id(#[trigger] edges[i].from@, #[trigger] with_role(nodes, "prerequisite"@)[p].node_ref@)
        && edges[i].to@ == req
}

/// Findings of the EC rules, in report order.
pub enum EcFinding {
    /// The number of objectives, when it is not exactly one.
    ObjectiveCount(nat),
    /// The number of requirements, when it is below two.
    RequirementCount(nat),
    /// A requirement with no prerequisite connected to it.
    Unsupported(Seq<char>),
}

pub open spec fn unsupported(nodes: Seq<NodeRef>, edges: Seq<Edge>, reqs: Seq<NodeRef>) -> Seq<EcFinding>
    decreases reqs.len(),
{
    if reqs.len() == 0 {
        seq![]
    } else {
        unsupported(nodes, edges, reqs.drop_last()) + if !has_prerequisite(nodes, edges, reqs.last().node_ref@) {
            seq![EcFinding::Unsupported(reqs.last().node_ref@)]
        } else {
            seq![]
        }
    }
}

pub open spec fn ec_findings(nodes: Seq<NodeRef>, edges: Seq<Edge>) -> Seq<EcFinding> {
    let objs = with_role(nodes, "objective"@).len();
    let reqs = with_role(nodes, "requirement"@);
    (if objs != 1 { seq![EcFinding::ObjectiveCount(objs)] } else { seq![] })
        + (if reqs.len() < 2 { seq![EcFinding::RequirementCount(reqs.len())] } else { seq![] })
        + unsupported(nodes, edges, reqs)
}

pub open spec fn is_ec_error(e: OutputError, f: EcFinding, tree_id: Seq<char>) -> bool {
    &&& e.code@ == "EC_VALIDATION"@
    &&& context_get(e.context@, "tree_id"@) == Some(ContextValueView::Str(tree_id))
    &&& match f {
        EcFinding::ObjectiveCount(n) => {
            &&& e.detail@ == "EC requires exactly 1 node with role 'objective', found "@ + decimal(n)
            &&& context_get(e.context@, "sub_rule"@) == Some(ContextValueView::Str("missing_objective"@))
        },
        EcFinding::RequirementCount(n) => {
            &&& e.detail@ == "EC requires at least 2 nodes with role 'requirement', found "@ + decimal(n)
            &&& context_get(e.context@, "sub_rule"@) == Some(ContextValueView::Str("minimum_2_requirements"@))
        },
        EcFinding::Unsupported(id) => {
            &&& e.detail@ == "Requirement '"@ + id + "' has no prerequisite connected to it"@
            &&& context_get(e.context@, "sub_rule"@) == Some(ContextValueView::Str("requirement_without_prerequisite"@))
            &&& context_get(e.context@, "node_id"@) == Some(ContextValueView::Str(id))
        },
    }
}

fn role_is(n: &NodeRef, role: &String) -> (r: bool)
    ensures r == has_role(*n, role@),
{
    match &n.role {
        Some(x) => *x == *role,
        None => false,
    }
}

fn filter_role(nodes: &Vec<NodeRef>, role: &String) -> (r: Vec<usize>)
    ensures
        r@.len() == with_role(nodes@, role@).len(),
        forall|k: int| 0 <= k < r@.len() ==> (#[trigger] r@[k] as int) < nodes@.len()
            && nodes@[r@[k] as int] == with_role(nodes@, role@)[k],
{
    let mut r: Vec<usize> = Vec::new();
    let mut i: usize = 0;
    while i < nodes.len()
        invariant
            i <= nodes@.len(),
            r@.len() == with_role(nodes@.subrange(0, i as int), role@).len(),
            forall|k: int| 0 <= k < r@.len() ==> (#[trigger] r@[k] as int) < nodes@.len()
                && nodes@[r@[k] as int] == with_role(nodes@.subrange(0, i as int), role@)[k],
        decreases nodes@.len() - i,
    {
        let ghost before = with_role(nodes@.subrange(0, i as int), role@);
        proof {
            let s = nodes@.subrange(0, i + 1);
            assert(s.drop_last() =~= nodes@.subrange(0, i as int));
            assert(s.last() == nodes@[i as int]);
        }
        if role_is(&nodes[i], role) {
            r.push(i);
            proof { assert(with_role(nodes@.subrange(0, i + 1), role@) =~= before.push(nodes@[i as int])); }
        } else {
            proof { assert(with_role(nodes@.subrange(0, i + 1), role@) =~= before); }
        }
        i = i + 1;
    }
    assert(nodes@.subrange(0, nodes@.len() as int) =~= nodes@);
    r
}

fn ec_error(detail: String, sub_rule: &str, tree_id: &str) -> (r: OutputError)
    ensures
        r.code@ == "EC_VALIDATION"@,
        r.detail@ == detail@,
        context_get(r.context@, "tree_id"@) == Some(ContextValueView::Str(tree_id@)),
        context_get(r.context@, "sub_rule"@) == Some(ContextValueView::Str(sub_rule@)),
{
    let e = OutputError::new("EC_VALIDATION", detail)
        .with_context("tree_id", ContextValue::Str(owned(tree_id)))
        .with_context("sub_rule", ContextValue::Str(owned(sub_rule)));
    proof {
        reveal_strlit("tree_id");
        reveal_strlit("sub_rule");
        assert("tree_id"@[0] != "sub_rule"@[0]);
    }
    e
}

/// Validate Evaporating Cloud (EC) specific rules: exactly one objective, at
/// least two requirements, and a prerequisite connected to each requirement.
pub fn check_ec_rules(nodes: &Vec<NodeRef>, edges: &Vec<Edge>, tree_id: &str) -> (r: Vec<OutputError>)
    ensures
        r@.len() == ec_findings(nodes@, edges@).len(),
        forall|k: int| 0 <= k < r@.len() ==> is_ec_error(#[trigger] r@[k], ec_findings(nodes@, edges@)[k], tree_id@),
{
    proof {
        reveal_strlit("objective");
        reveal_strlit("requirement");
        reveal_strlit("prerequisite");
        reveal_strlit("tree_id");
        reveal_strlit("sub_rule");
        reveal_strlit("node_id");
        assert("node_id"@[0] != "sub_rule"@[0]);
        assert("node_id"@[0] != "tree_id"@[0]);
    }
    let mut errors: Vec<OutputError> = Vec::new();
    let objective = owned("objective");
    let requirement = owned("requirement");
    let prerequisite = owned("prerequisite");
    let objectives = filter_role(nodes, &objective);
    if objectives.len() != 1 {
        let n = u64_to_decimal(objectives.len() as u64);
        errors.push(ec_error(cat3("EC requires exactly 1 node with role 'objective', found ", n.as_str(), ""), "missing_objective", tree_id));
        proof { reveal_strlit(""); }
    }
    let requirements = filter_role(nodes, &requirement);
    if requirements.len() < 2 {
        let n = u64_to_decimal(requirements.len() as u64);
        errors.push(ec_error(cat3("EC requires at least 2 nodes with role 'requirement', found ", n.as_str(), ""), "minimum_2_requirements", tree_id));
        proof { reveal_strlit(""); }
    }
    let prerequisites = filter_role(nodes, &prerequisite);
    let ghost reqs = with_role(nodes@, "requirement"@);
    let ghost pres = with_role(nodes@, "prerequisite"@);
    let ghost head = (if objectives@.len() != 1 { seq![EcFinding::ObjectiveCount(objectives@.len() as nat)] } else { seq![] })
        + (if reqs.len() < 2 { seq![EcFinding::RequirementCount(reqs.len())] } else { seq![] });
    assert(errors@.len() == head.len());
    assert(forall|k: int| 0 <= k < errors@.len() ==> is_ec_error(#[trigger] errors@[k], head[k], tree_id@));
    let mut q: usize = 0;
    while q < requirements.len()
        invariant
            q <= requirements@.len(),
            requirements@.len() == reqs.len(),
            forall|k: int| 0 <= k < requirements@.len() ==> (#[trigger] requirements@[k] as int) < nodes@.len()
                && nodes@[requirements@[k] as int] == reqs[k],
            prerequisites@.len() == pres.len(),
            forall|k: int| 0 <= k < prerequisites@.len() ==> (#[trigger] prerequisites@[k] as int) < nodes@.len()
                && nodes@[prerequisites@[k] as int] == pres[k],
            pres == with_role(nodes@, "prerequisite"@),
            errors@.len() == head.len() + unsupported(nodes@, edges@, reqs.subrange(0, q as int)).len(),
            forall|k: int| 0 <= k < errors@.len() ==> is_ec_error(#[trigger] errors@[k],
                (head + unsupported(nodes@, edges@, reqs.subrange(0, q as int)))[k], tree_id@),
        decreases requirements@.len() - q,
    {
        let req = &nodes[requirements[q]];
        let mut found = false;
        let mut p: usize = 0;
        while p < prerequisites.len() && !found
            invariant
                p <= prerequisites@.len(),
                prerequisites@.len() == pres.len(),
                forall|k: int| 0 <= k < prerequisites@.len() ==> (#[trigger] prerequisites@[k] as int) < nodes@.len()
                    && nodes@[prerequisites@[k] as int] == pres[k],
                pres == with_role(nodes@, "prerequisite"@),
                found ==> has_prerequisite(nodes@, edges@, req.node_ref@),
                !found ==> forall|p2: int, i2: int| 0 <= p2 < p && 0 <= i2 < edges@.len() ==>
                    !(has_id(#[trigger] edges@[i2].from@, #[trigger] pres[p2].node_ref@) && edges@[i2].to@ == req.node_ref@),
            decreases prerequisites@.len() - p,
        {
            let pre = &nodes[prerequisites[p]];
            let mut i: usize = 0;
            while i < edges.len() && !found
                invariant
                    i <= edges@.len(),
                    p < pres.len(),
                    *pre == pres[p as int],
                    pres == with_role(nodes@, "prerequisite"@),
                    found ==> has_prerequisite(nodes@, edges@, req.node_ref@),
                    !found ==> forall|i2: int| 0 <= i2 < i ==>
                        !(has_id(#[trigger] edges@[i2].from@, pre.node_ref@) && edges@[i2].to@ == req.node_ref@),
                decreases edges@.len() - i,
            {
                if crate::strutil::contains_string(&edges[i].from, &pre.node_ref) && edges[i].to == req.node_ref {
                    found = true;
                    proof {
                        assert(has_id(edges@[i as int].from@, pres[p as int].node_ref@));
                    }
                }
                i = i + 1;
            }
            p = p + 1;
        }
        let ghost before = head + unsupported(nodes@, edges@, reqs.subrange(0, q as int));
        proof {
            let s = reqs.subrange(0, q + 1);
            assert(s.drop_last() =~= reqs.subrange(0, q as int));
            assert(s.last() == reqs[q as int]);
            if !found {
                assert(!has_prerequisite(nodes@, edges@, req.node_ref@));
            }
        }
        if !found {
            let detail = cat3("Requirement '", req.node_ref.as_str(), "' has no prerequisite connected to it");
            let e = ec_error(detail, "requirement_without_prerequisite", tree_id)
                .with_context("node_id", ContextValue::Str(req.node_ref.clone()));
            proof {
                reveal_strlit("tree_id");
                reveal_strlit("sub_rule");
                reveal_strlit("node_id");
                assert("node_id"@[0] != "sub_rule"@[0]);
                assert("node_id"@[0] != "tree_id"@[0]);
            }
            errors.push(e);
            proof {
                assert(head + unsupported(nodes@, edges@, reqs.subrange(0, q + 1)) =~= before.push(EcFinding::Unsupported(req.node_ref@)));
            }
        } else {
            proof {
                assert(head + unsupported(nodes@, edges@, reqs.subrange(0, q + 1)) =~= before);
            }
        }
        q = q + 1;
    }
    proof {
        assert(reqs.subrange(0, reqs.len() as int) =~= reqs);
        assert(head + unsupported(nodes@, edges@, reqs) =~= ec_findings(nodes@, edges@));
    }
    errors
}

} // verus!
