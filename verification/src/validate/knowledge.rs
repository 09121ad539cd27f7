//! Knowledge Pool integrity and epistemic grounding of nodes.
use vstd::prelude::*;
use crate::knowledge::resolve::{resolution, target_exists, ResolvedTarget};
use crate::knowledge::types::{KnowledgeItem, KnowledgeRelation, KnowledgeStatus};
use crate::node::types::{EpistemicStatus, Node};
use crate::output::{lemma_warnings_concat, warnings_are, ContextValue, ContextValueView, OutputWarning};
use crate::strutil::{cat4, cat5, contains_string, decimal, filter_seq, has_id, lemma_filter_step, lemma_take_all, owned, u64_to_decimal};
use crate::tree::types::Tree;
use crate::validate::macro_edge::ExpectedWarning;

verus! {

/// The target names an entity of the graph.
pub open spec fn target_resolves(target: Seq<char>, pool: Seq<Node>, trees: Seq<Tree>) -> bool {
    exists|t: ResolvedTarget| resolution(Some(t), target, pool, trees)
}

/// The dangling-reference warnings of one item: one per link whose target
/// does not resolve, in order.
pub open spec fn dangling_links(item: KnowledgeItem, links: Seq<crate::knowledge::types::KnowledgeLink>, pool: Seq<Node>, trees: Seq<Tree>)
    -> Seq<ExpectedWarning>
    decreases links.len(),
{
    if links.len() == 0 {
        Seq::empty()
    } else {
        let p = dangling_links(item, links.drop_last(), pool, trees);
        let l = links.last();
        if !target_resolves(l.target@, pool, trees) {
            p.push(("DANGLING_KNOWLEDGE_REF"@,
                "Knowledge item '"@ + item.id@ + "' links to '"@ + l.target@ + "' which does not exist"@,
                seq![("knowledge_id"@, ContextValueView::Str(item.id@)), ("target"@, ContextValueView::Str(l.target@))]))
        } else {
            p
        }
    }
}

/// The dangling-reference warnings of all items, item after item.
pub open spec fn dangling_expected(items: Seq<KnowledgeItem>, pool: Seq<Node>, trees: Seq<Tree>) -> Seq<ExpectedWarning>
    decreases items.len(),
{
    if items.len() == 0 {
        Seq::empty()
    } else {
        dangling_expected(items.drop_last(), pool, trees) + dangling_links(items.last(), items.last().links@, pool, trees)
    }
}

/// The item has a link to `id` with relation `rel`.
pub open spec fn links_to(item: KnowledgeItem, id: Seq<char>, rel: KnowledgeRelation) -> bool {
    exists|j: int| 0 <= j < item.links@.len() && (#[trigger] item.links@[j]).target@ == id && item.links@[j].relation == rel
}

/// Some unrefuted, unsuperseded item supports the node.
pub open spec fn has_active_support(items: Seq<KnowledgeItem>, id: Seq<char>) -> bool {
    exists|i: int| 0 <= i < items.len()
        && (items[i].status == KnowledgeStatus::Unverified || items[i].status == KnowledgeStatus::Verified)
        && links_to(#[trigger] items[i], id, KnowledgeRelation::Supports)
}

/// The verified items with a link of relation `rel` to the node.
pub open spec fn verified_linking(items: Seq<KnowledgeItem>, id: Seq<char>, rel: KnowledgeRelation) -> Seq<KnowledgeItem> {
    filter_seq(items, |it: KnowledgeItem| it.status == KnowledgeStatus::Verified && links_to(it, id, rel))
}

/// The contradiction warnings of a fact node, one per contradicting item.
pub open spec fn contradicted_expected(node_id: Seq<char>, kns: Seq<KnowledgeItem>) -> Seq<ExpectedWarning>
    decreases kns.len(),
{
    if kns.len() == 0 {
        Seq::empty()
    } else {
        contradicted_expected(node_id, kns.drop_last()).push(("EPISTEMIC_CONTRADICTED"@,
            "Node '"@ + node_id + "' (fact) is contradicted by verified evidence '"@ + kns.last().id@ + "'"@,
            seq![("node_id"@, ContextValueView::Str(node_id)), ("knowledge_id"@, ContextValueView::Str(kns.last().id@))]))
    }
}

/// The name of an epistemic status as written in messages.
pub open spec fn epistemic_debug_name(e: EpistemicStatus) -> Seq<char> {
    match e {
        EpistemicStatus::Fact => "Fact"@,
        EpistemicStatus::Hypothesis => "Hypothesis"@,
        EpistemicStatus::Assumption => "Assumption"@,
        EpistemicStatus::Derived => "Derived"@,
    }
}

/// The epistemic warnings of one node: a fact without active support is
/// ungrounded, and contradicted once per verified contradicting item; a
/// hypothesis or assumption with at least two verified supporting items
/// and no verified contradiction could be promoted.
pub open spec fn node_expected(items: Seq<KnowledgeItem>, node: Node) -> Seq<ExpectedWarning> {
    let id = node.id@;
    match node.epistemic {
        EpistemicStatus::Fact =>
            (if !has_active_support(items, id) {
                seq![("EPISTEMIC_UNGROUNDED"@,
                    "Node '"@ + id + "' is declared as fact but has no active supporting evidence"@,
                    seq![("node_id"@, ContextValueView::Str(id))])]
            } else {
                Seq::empty()
            }) + contradicted_expected(id, verified_linking(items, id, KnowledgeRelation::Contradicts)),
        EpistemicStatus::Hypothesis | EpistemicStatus::Assumption => {
            let vs = verified_linking(items, id, KnowledgeRelation::Supports).len();
            if vs >= 2 && verified_linking(items, id, KnowledgeRelation::Contradicts).len() == 0 {
                seq![("EPISTEMIC_UPGRADEABLE"@,
                    "Node '"@ + id + "' ("@ + epistemic_debug_name(node.epistemic) + ") has "@ + decimal(vs)
                        + " verified supports and could be promoted to fact"@,
                    seq![("node_id"@, ContextValueView::Str(id)), ("verified_supports"@, ContextValueView::Num(vs as u64))])]
            } else {
                Seq::empty()
            }
        },
        EpistemicStatus::Derived => Seq::empty(),
    }
}

/// The epistemic warnings of the nodes that pass the filter, in order.
pub open spec fn nodes_expected(items: Seq<KnowledgeItem>, nodes: Seq<Node>, filter: Option<Seq<String>>) -> Seq<ExpectedWarning>
    decreases nodes.len(),
{
    if nodes.len() == 0 {
        Seq::empty()
    } else {
        let n = nodes.last();
        nodes_expected(items, nodes.drop_last(), filter) + if filter matches Some(f) && !has_id(f, n.id@) {
            Seq::empty()
        } else {
            node_expected(items, n)
        }
    }
}

fn item_links_to(item: &KnowledgeItem, id: &String, rel: KnowledgeRelation) -> (r: bool)
    ensures r == links_to(*item, id@, rel),
{
    let mut j: usize = 0;
    while j < item.links.len()
        invariant
            j <= item.links@.len(),
            forall|k: int| 0 <= k < j ==> !((#[trigger] item.links@[k]).target@ == id@ && item.links@[k].relation == rel),
        decreases item.links@.len() - j,
    {
        if item.links[j].target == *id && item.links[j].relation == rel {
            return true;
        }
        j = j + 1;
    }
    false
}

fn dangling_warnings(items: &Vec<KnowledgeItem>, pool: &Vec<Node>, trees: &Vec<Tree>) -> (r: Vec<OutputWarning>)
    ensures warnings_are(r@, dangling_expected(items@, pool@, trees@)),
{
    let mut w: Vec<OutputWarning> = Vec::new();
    let mut i: usize = 0;
    while i < items.len()
        invariant
            i <= items@.len(),
            warnings_are(w@, dangling_expected(items@.take(i as int), pool@, trees@)),
        decreases items@.len() - i,
    {
        proof {
            let t = items@.take(i + 1);
            assert(t.drop_last() =~= items@.take(i as int));
            assert(t.last() == items@[i as int]);
        }
        let item = &items[i];
        let ghost base = w@;
        let ghost base_e = dangling_expected(items@.take(i as int), pool@, trees@);
        let mut j: usize = 0;
        while j < item.links.len()
            invariant
                j <= item.links@.len(),
                i < items@.len(),
                *item == items@[i as int],
                warnings_are(base, base_e),
                w@.len() >= base.len(),
                w@.subrange(0, base.len() as int) == base,
                warnings_are(w@.subrange(base.len() as int, w@.len() as int), dangling_links(*item, item.links@.take(j as int), pool@, trees@)),
            decreases item.links@.len() - j,
        {
            proof {
                let t = item.links@.take(j + 1);
                assert(t.drop_last() =~= item.links@.take(j as int));
                assert(t.last() == item.links@[j as int]);
            }
            let link = &item.links[j];
            let ghost before = w@;
            if !target_exists(link.target.as_str(), pool, trees) {
                let detail = cat5("Knowledge item '", item.id.as_str(), "' links to '", link.target.as_str(), "' which does not exist");
                let x = OutputWarning::new("DANGLING_KNOWLEDGE_REF", detail)
                    .with_context("knowledge_id", ContextValue::Str(item.id.clone()))
                    .with_context("target", ContextValue::Str(link.target.clone()));
                w.push(x);
                proof {
                    reveal_strlit("knowledge_id");
                    reveal_strlit("target");
                    assert("knowledge_id"@ != "target"@) by { assert("knowledge_id"@[0] != "target"@[0]); }
                    let tail0 = before.subrange(base.len() as int, before.len() as int);
                    let e0: ExpectedWarning = ("DANGLING_KNOWLEDGE_REF"@,
                        "Knowledge item '"@ + item.id@ + "' links to '"@ + link.target@ + "' which does not exist"@,
                        seq![("knowledge_id"@, ContextValueView::Str(item.id@)), ("target"@, ContextValueView::Str(link.target@))]);
                    assert(warnings_are(seq![x], seq![e0]));
                    lemma_warnings_concat(tail0, dangling_links(*item, item.links@.take(j as int), pool@, trees@), seq![x], seq![e0]);
                    assert(w@.subrange(base.len() as int, w@.len() as int) =~= tail0 + seq![x]);
                    assert(w@.subrange(0, base.len() as int) =~= before.subrange(0, base.len() as int));
                }
            }
            j = j + 1;
        }
        proof {
            lemma_take_all(item.links@);
            let tail = w@.subrange(base.len() as int, w@.len() as int);
            lemma_warnings_concat(base, base_e, tail, dangling_links(*item, item.links@, pool@, trees@));
            assert(base + tail =~= w@);
        }
        i = i + 1;
    }
    proof { lemma_take_all(items@); }
    w
}

/// Whether some unrefuted, unsuperseded item supports the node.
fn active_support(items: &Vec<KnowledgeItem>, id: &String) -> (r: bool)
    ensures r == has_active_support(items@, id@),
{
    let mut i: usize = 0;
    while i < items.len()
        invariant
            i <= items@.len(),
            forall|k: int| 0 <= k < i ==> !((items@[k].status == KnowledgeStatus::Unverified || items@[k].status == KnowledgeStatus::Verified)
                && links_to(#[trigger] items@[k], id@, KnowledgeRelation::Supports)),
        decreases items@.len() - i,
    {
        let st = items[i].status;
        if (st == KnowledgeStatus::Unverified || st == KnowledgeStatus::Verified)
            && item_links_to(&items[i], id, KnowledgeRelation::Supports) {
            return true;
        }
        i = i + 1;
    }
    false
}

/// The verified items linking to the node with relation `rel`.
fn verified_linkers(items: &Vec<KnowledgeItem>, id: &String, rel: KnowledgeRelation) -> (r: Vec<String>)
    ensures
        r@.len() == verified_linking(items@, id@, rel).len(),
        forall|k: int| 0 <= k < r@.len() ==> (#[trigger] r@[k])@ == verified_linking(items@, id@, rel)[k].id@,
{
    let ghost p = |it: KnowledgeItem| it.status == KnowledgeStatus::Verified && links_to(it, id@, rel);
    let mut r: Vec<String> = Vec::new();
    let mut i: usize = 0;
    while i < items.len()
        invariant
            i <= items@.len(),
            p == (|it: KnowledgeItem| it.status == KnowledgeStatus::Verified && links_to(it, id@, rel)),
            r@.len() == filter_seq(items@.take(i as int), p).len(),
            forall|k: int| 0 <= k < r@.len() ==> (#[trigger] r@[k])@ == filter_seq(items@.take(i as int), p)[k].id@,
        decreases items@.len() - i,
    {
        proof { lemma_filter_step(items@, p, i as int); }
        if items[i].status == KnowledgeStatus::Verified && item_links_to(&items[i], id, rel) {
            r.push(items[i].id.clone());
        }
        i = i + 1;
    }
    proof { lemma_take_all(items@); }
    r
}

fn epistemic_debug_str(e: EpistemicStatus) -> (r: &'static str)
    ensures r@ == epistemic_debug_name(e),
{
    match e {
        EpistemicStatus::Fact => "Fact",
        EpistemicStatus::Hypothesis => "Hypothesis",
        EpistemicStatus::Assumption => "Assumption",
        EpistemicStatus::Derived => "Derived",
    }
}

fn contradicted_warnings(node_id: &String, kns: &Vec<String>, Ghost(items): Ghost<Seq<KnowledgeItem>>) -> (r: Vec<OutputWarning>)
    requires
        kns@.len() == items.len(),
        forall|k: int| 0 <= k < kns@.len() ==> (#[trigger] kns@[k])@ == items[k].id@,
    ensures warnings_are(r@, contradicted_expected(node_id@, items)),
{
    let mut w: Vec<OutputWarning> = Vec::new();
    let mut i: usize = 0;
    while i < kns.len()
        invariant
            i <= kns@.len(),
            kns@.len() == items.len(),
            forall|k: int| 0 <= k < kns@.len() ==> (#[trigger] kns@[k])@ == items[k].id@,
            warnings_are(w@, contradicted_expected(node_id@, items.take(i as int))),
        decreases kns@.len() - i,
    {
        proof {
            let t = items.take(i + 1);
            assert(t.drop_last() =~= items.take(i as int));
            assert(t.last() == items[i as int]);
        }
        let detail = cat5("Node '", node_id.as_str(), "' (fact) is contradicted by verified evidence '", kns[i].as_str(), "'");
        let x = OutputWarning::new("EPISTEMIC_CONTRADICTED", detail)
            .with_context("node_id", ContextValue::Str(node_id.clone()))
            .with_context("knowledge_id", ContextValue::Str(kns[i].clone()));
        let ghost pre = w@;
        w.push(x);
        proof {
            reveal_strlit("node_id");
            reveal_strlit("knowledge_id");
            assert("node_id"@ != "knowledge_id"@) by { assert("node_id"@[0] != "knowledge_id"@[0]); }
            let e0: ExpectedWarning = ("EPISTEMIC_CONTRADICTED"@,
                "Node '"@ + node_id@ + "' (fact) is contradicted by verified evidence '"@ + items[i as int].id@ + "'"@,
                seq![("node_id"@, ContextValueView::Str(node_id@)), ("knowledge_id"@, ContextValueView::Str(items[i as int].id@))]);
            assert(warnings_are(seq![x], seq![e0]));
            lemma_warnings_concat(pre, contradicted_expected(node_id@, items.take(i as int)), seq![x], seq![e0]);
            assert(w@ =~= pre + seq![x]);
        }
        i = i + 1;
    }
    proof { lemma_take_all(items); }
    w
}

fn node_warnings(items: &Vec<KnowledgeItem>, node: &Node) -> (r: Vec<OutputWarning>)
    ensures warnings_are(r@, node_expected(items@, *node)),
{
    let id = &node.id;
    match node.epistemic {
        EpistemicStatus::Fact => {
            let mut w: Vec<OutputWarning> = Vec::new();
            if !active_support(items, id) {
                let detail = cat3_owned(id);
                let x = OutputWarning::new("EPISTEMIC_UNGROUNDED", detail)
                    .with_context("node_id", ContextValue::Str(id.clone()));
                w.push(x);
                proof { assert(w@[0] == x); }
            }
            let ghost first = w@;
            let ghost first_e: Seq<ExpectedWarning> = if !has_active_support(items@, id@) {
                seq![("EPISTEMIC_UNGROUNDED"@,
                    "Node '"@ + id@ + "' is declared as fact but has no active supporting evidence"@,
                    seq![("node_id"@, ContextValueView::Str(id@))])]
            } else {
                Seq::empty()
            };
            assert(warnings_are(first, first_e));
            let kns = verified_linkers(items, id, KnowledgeRelation::Contradicts);
            let mut cw = contradicted_warnings(id, &kns, Ghost(verified_linking(items@, id@, KnowledgeRelation::Contradicts)));
            let ghost cwv = cw@;
            w.append(&mut cw);
            proof {
                lemma_warnings_concat(first, first_e, cwv,
                    contradicted_expected(id@, verified_linking(items@, id@, KnowledgeRelation::Contradicts)));
                assert(w@ == first + cwv);
            }
            w
        },
        EpistemicStatus::Hypothesis | EpistemicStatus::Assumption => {
            let mut w: Vec<OutputWarning> = Vec::new();
            let vs = verified_linkers(items, id, KnowledgeRelation::Supports).len();
            let vc = verified_linkers(items, id, KnowledgeRelation::Contradicts).len();
            if vs >= 2 && vc == 0 {
                let n = u64_to_decimal(vs as u64);
                let head = cat5("Node '", id.as_str(), "' (", epistemic_debug_str(node.epistemic), ") has ");
                let detail = cat3_plain(head.as_str(), n.as_str(), " verified supports and could be promoted to fact");
                let x = OutputWarning::new("EPISTEMIC_UPGRADEABLE", detail)
                    .with_context("node_id", ContextValue::Str(id.clone()))
                    .with_context("verified_supports", ContextValue::Num(vs as u64));
                w.push(x);
                proof {
                    reveal_strlit("node_id");
                    reveal_strlit("verified_supports");
                    assert("node_id"@ != "verified_supports"@) by { assert("node_id"@[0] != "verified_supports"@[0]); }
                    assert((vs as u64) as nat == verified_linking(items@, id@, KnowledgeRelation::Supports).len());
                    assert(w@[0] == x);
                }
            }
            w
        },
        EpistemicStatus::Derived => Vec::new(),
    }
}

fn cat3_owned(id: &String) -> (r: String)
    ensures r@ == "Node '"@ + id@ + "' is declared as fact but has no active supporting evidence"@,
{
    crate::strutil::cat3("Node '", id.as_str(), "' is declared as fact but has no active supporting evidence")
}

fn cat3_plain(a: &str, b: &str, c: &str) -> (r: String)
    ensures r@ == a@ + b@ + c@,
{
    crate::strutil::cat3(a, b, c)
}

/// Validates the Knowledge Pool: a `DANGLING_KNOWLEDGE_REF` warning per
/// link whose target does not resolve against the node pool and the trees;
/// then, when the nodes could be listed, the epistemic warnings of each
/// node that passes the filter (`EPISTEMIC_UNGROUNDED`,
/// `EPISTEMIC_CONTRADICTED`, `EPISTEMIC_UPGRADEABLE`). `items` are the
/// knowledge items that could be loaded, `nodes` the nodes that could be
/// loaded, in listing order.
pub fn validate_knowledge(
    items: &Vec<KnowledgeItem>,
    pool: &Vec<Node>,
    trees: &Vec<Tree>,
    nodes: Option<&Vec<Node>>,
    node_filter: Option<&Vec<String>>,
) -> (r: Vec<OutputWarning>)
    ensures
        warnings_are(r@, dangling_expected(items@, pool@, trees@) + match nodes {
            Some(ns) => nodes_expected(items@, ns@, match node_filter { Some(f) => Some(f@), None => None }),
            None => Seq::empty(),
        }),
{
    let mut w = dangling_warnings(items, pool, trees);
    let ghost first = w@;
    let ns = match nodes {
        Some(ns) => ns,
        None => {
            proof { assert(dangling_expected(items@, pool@, trees@) + Seq::<ExpectedWarning>::empty() =~= dangling_expected(items@, pool@, trees@)); }
            return w;
        },
    };
    let ghost filt: Option<Seq<String>> = match node_filter { Some(f) => Some(f@), None => None };
    let mut rest: Vec<OutputWarning> = Vec::new();
    let mut i: usize = 0;
    while i < ns.len()
        invariant
            i <= ns@.len(),
            filt == (match node_filter { Some(f) => Some(f@), None => None::<Seq<String>> }),
            warnings_are(rest@, nodes_expected(items@, ns@.take(i as int), filt)),
        decreases ns@.len() - i,
    {
        proof {
            let t = ns@.take(i + 1);
            assert(t.drop_last() =~= ns@.take(i as int));
            assert(t.last() == ns@[i as int]);
        }
        let n = &ns[i];
        let keep = match node_filter {
            Some(f) => contains_string(f, &n.id),
            None => true,
        };
        if keep {
            let mut nw = node_warnings(items, n);
            let ghost pre = rest@;
            let ghost nwv = nw@;
            rest.append(&mut nw);
            proof {
                lemma_warnings_concat(pre, nodes_expected(items@, ns@.take(i as int), filt), nwv, node_expected(items@, *n));
                assert(rest@ == pre + nwv);
            }
        } else {
            proof {
                assert(nodes_expected(items@, ns@.take(i as int), filt) + Seq::<ExpectedWarning>::empty()
                    =~= nodes_expected(items@, ns@.take(i as int), filt));
            }
        }
        i = i + 1;
    }
    proof { lemma_take_all(ns@); }
    let ghost restv = rest@;
    w.append(&mut rest);
    proof {
        lemma_warnings_concat(first, dangling_expected(items@, pool@, trees@), restv, nodes_expected(items@, ns@, filt));
        assert(w@ == first + restv);
    }
    w
}

} // verus!
