//! Non-blocking audit of long arrows (macro edges): hygiene warnings only,
//! never errors, so they do not affect `valid_dag`.
use vstd::prelude::*;
use crate::macro_assume::{
    gather_interior_assumptions, interior_asm_ids, is_gathering, summary_diff, dangling_of, unmapped_of, GatheredLink,
};
use crate::output::{lemma_warnings_concat, warnings_are, ContextValue, ContextValueView, OutputWarning};
use crate::strutil::{cat3, cat5, decimal, u64_to_decimal, views};
use crate::tree::types::{macro_edge_status, macro_status_of, MacroAssumption, MacroEdge, MacroEdgeStatus, Tree};

verus! {

/// An expected warning: code, detail and context entries.
pub type ExpectedWarning = (Seq<char>, Seq<char>, Seq<(Seq<char>, ContextValueView)>);

/// The ungrounded-summary warnings: one per summary assumption without
/// projection references, in order.
pub open spec fn ungrounded_expected(macro_id: Seq<char>, masms: Seq<MacroAssumption>) -> Seq<ExpectedWarning>
    decreases masms.len(),
{
    if masms.len() == 0 {
        Seq::empty()
    } else {
        let p = ungrounded_expected(macro_id, masms.drop_last());
        let ma = masms.last();
        if ma.projection_refs@.len() == 0 {
            p.push(("MACRO_ASSUMPTION_UNGROUNDED"@,
                "Macro-assumption '"@ + ma.id@ + "' has no projection_refs while the interior is non-empty"@,
                seq![("macro_link"@, ContextValueView::Str(macro_id)), ("assumption_id"@, ContextValueView::Str(ma.id@))]))
        } else {
            p
        }
    }
}

/// The stale-summary warning, when anything is unmapped or dangling.
pub open spec fn stale_expected(me: MacroEdge, g: Seq<GatheredLink>) -> Seq<ExpectedWarning> {
    let u = unmapped_of(g, me);
    let d = dangling_of(g, me);
    if u.len() > 0 || d.len() > 0 {
        seq![("LONG_ARROW_SUMMARY_STALE"@,
            "Long arrow '"@ + me.id@ + "' summary is stale ("@ + decimal(u.len()) + " unmapped, "@
                + decimal(d.len()) + " dangling)"@,
            seq![("macro_link"@, ContextValueView::Str(me.id@)), ("unmapped"@, ContextValueView::List(u)),
                ("dangling"@, ContextValueView::List(d))])]
    } else {
        Seq::empty()
    }
}

/// The warnings for one long arrow, given its gathering: a reservation is
/// pending; an overlay without summary is unsummarized when its interior
/// has assumptions; an overlay with summary is stale when anything is
/// unmapped or dangling, and each summary assumption without references is
/// ungrounded when the interior is not empty.
pub open spec fn expected_for(me: MacroEdge, g: Seq<GatheredLink>) -> Seq<ExpectedWarning> {
    match macro_status_of(me.status@) {
        MacroEdgeStatus::Reservation => seq![("LONG_ARROW_RESERVATION_PENDING"@,
            "Long arrow '"@ + me.id@ + "' is a reservation pending expansion or promotion"@,
            seq![("macro_link"@, ContextValueView::Str(me.id@)), ("from"@, ContextValueView::Str(me.from@)),
                ("to"@, ContextValueView::Str(me.to@))])],
        MacroEdgeStatus::Overlay => {
            let count = interior_asm_ids(g).len();
            if me.assumptions@.len() == 0 {
                if count > 0 {
                    seq![("LONG_ARROW_UNSUMMARIZED"@,
                        "Long arrow '"@ + me.id@ + "' has "@ + decimal(count) + " interior assumption(s) but no summary"@,
                        seq![("macro_link"@, ContextValueView::Str(me.id@)),
                            ("interior_asm_count"@, ContextValueView::Num(count as u64))])]
                } else {
                    Seq::empty()
                }
            } else {
                stale_expected(me, g) + (if g.len() > 0 { ungrounded_expected(me.id@, me.assumptions@) } else { Seq::empty() })
            }
        },
    }
}

/// The warnings for the long arrows, one gathering per arrow.
pub open spec fn expected_all(mes: Seq<MacroEdge>, gs: Seq<Seq<GatheredLink>>) -> Seq<ExpectedWarning>
    decreases mes.len(),
{
    if mes.len() == 0 || gs.len() == 0 {
        Seq::empty()
    } else {
        expected_all(mes.drop_last(), gs.drop_last()) + expected_for(mes.last(), gs.last())
    }
}

fn ungrounded_warnings(me: &MacroEdge) -> (r: Vec<OutputWarning>)
    ensures warnings_are(r@, ungrounded_expected(me.id@, me.assumptions@)),
{
    let masms = &me.assumptions;
    let mut w: Vec<OutputWarning> = Vec::new();
    let mut j: usize = 0;
    while j < masms.len()
        invariant
            j <= masms@.len(),
            masms@ == me.assumptions@,
            warnings_are(w@, ungrounded_expected(me.id@, masms@.take(j as int))),
        decreases masms@.len() - j,
    {
        proof {
            let t = masms@.take(j + 1);
            assert(t.drop_last() =~= masms@.take(j as int));
            assert(t.last() == masms@[j as int]);
        }
        let ma = &masms[j];
        if ma.projection_refs.len() == 0 {
            let detail = cat3("Macro-assumption '", ma.id.as_str(), "' has no projection_refs while the interior is non-empty");
            let x = OutputWarning::new("MACRO_ASSUMPTION_UNGROUNDED", detail)
                .with_context("macro_link", ContextValue::Str(me.id.clone()))
                .with_context("assumption_id", ContextValue::Str(ma.id.clone()));
            let ghost pre = w@;
            w.push(x);
            proof {
                reveal_strlit("macro_link");
                reveal_strlit("assumption_id");
                let e = ungrounded_expected(me.id@, masms@.take(j + 1));
                assert(e.last().2[0].0 == "macro_link"@);
                assert(e.last().2[1].0 == "assumption_id"@);
                assert forall|k: int| 0 <= k < w@.len() implies
                    crate::output::warning_is(#[trigger] w@[k], e[k].0, e[k].1, e[k].2) by {
                    if k < pre.len() { assert(w@[k] == pre[k]); }
                }
            }
        }
        j = j + 1;
    }
    proof { crate::strutil::lemma_take_all(masms@); }
    w
}

fn edge_warnings(me: &MacroEdge, g: &Vec<GatheredLink>) -> (r: Vec<OutputWarning>)
    ensures warnings_are(r@, expected_for(*me, g@)),
{
    let mut w: Vec<OutputWarning> = Vec::new();
    match macro_edge_status(me) {
        MacroEdgeStatus::Reservation => {
            let detail = cat3("Long arrow '", me.id.as_str(), "' is a reservation pending expansion or promotion");
            let x = OutputWarning::new("LONG_ARROW_RESERVATION_PENDING", detail)
                .with_context("macro_link", ContextValue::Str(me.id.clone()))
                .with_context("from", ContextValue::Str(me.from.clone()))
                .with_context("to", ContextValue::Str(me.to.clone()));
            w.push(x);
            proof {
                reveal_strlit("macro_link");
                reveal_strlit("from");
                reveal_strlit("to");
                assert("macro_link"@ != "from"@) by { assert("macro_link"@[0] != "from"@[0]); }
                assert("macro_link"@ != "to"@) by { assert("macro_link"@[0] != "to"@[0]); }
                assert("from"@ != "to"@) by { assert("from"@[0] != "to"@[0]); }
                let e0: ExpectedWarning = ("LONG_ARROW_RESERVATION_PENDING"@,
                    "Long arrow '"@ + me.id@ + "' is a reservation pending expansion or promotion"@,
                    seq![("macro_link"@, ContextValueView::Str(me.id@)), ("from"@, ContextValueView::Str(me.from@)),
                        ("to"@, ContextValueView::Str(me.to@))]);
                assert(expected_for(*me, g@) == seq![e0]);
                assert(w@[0] == x);
                assert(warnings_are(w@, seq![e0]));
            }
            w
        },
        MacroEdgeStatus::Overlay => {
            let ids = crate::macro_assume::asm_ids_of(g).len();
            if me.assumptions.len() == 0 {
                if ids > 0 {
                    let n = u64_to_decimal(ids as u64);
                    let detail = cat5("Long arrow '", me.id.as_str(), "' has ", n.as_str(), " interior assumption(s) but no summary");
                    let x = OutputWarning::new("LONG_ARROW_UNSUMMARIZED", detail)
                        .with_context("macro_link", ContextValue::Str(me.id.clone()))
                        .with_context("interior_asm_count", ContextValue::Num(ids as u64));
                    w.push(x);
                    proof {
                        reveal_strlit("macro_link");
                        reveal_strlit("interior_asm_count");
                        let count = interior_asm_ids(g@).len();
                        assert((ids as u64) as nat == count);
                        assert("macro_link"@ != "interior_asm_count"@) by { assert("macro_link"@[0] != "interior_asm_count"@[0]); }
                        let e0: ExpectedWarning = ("LONG_ARROW_UNSUMMARIZED"@,
                            "Long arrow '"@ + me.id@ + "' has "@ + decimal(count) + " interior assumption(s) but no summary"@,
                            seq![("macro_link"@, ContextValueView::Str(me.id@)),
                                ("interior_asm_count"@, ContextValueView::Num(count as u64))]);
                        assert(expected_for(*me, g@) == seq![e0]);
                        assert(w@[0] == x);
                        assert(crate::output::context_get(x.context@, "macro_link"@) == Some(ContextValueView::Str(me.id@)));
                        assert(crate::output::context_get(x.context@, "interior_asm_count"@) == Some(ContextValueView::Num(count as u64)));
                        assert(warnings_are(w@, seq![e0]));
                    }
                }
                return w;
            }
            let diff = summary_diff(g, me);
            if diff.unmapped.len() > 0 || diff.dangling.len() > 0 {
                let u = u64_to_decimal(diff.unmapped.len() as u64);
                let d = u64_to_decimal(diff.dangling.len() as u64);
                let head = cat3("Long arrow '", me.id.as_str(), "' summary is stale (");
                let detail = cat5(head.as_str(), u.as_str(), " unmapped, ", d.as_str(), " dangling)");
                let ul = ContextValue::List(diff.unmapped);
                let dl = ContextValue::List(diff.dangling);
                let x0 = OutputWarning::new("LONG_ARROW_SUMMARY_STALE", detail)
                    .with_context("macro_link", ContextValue::Str(me.id.clone()));
                let x1 = x0.with_context("unmapped", ul);
                let x = x1.with_context("dangling", dl);
                proof {
                    reveal_strlit("unmapped");
                    reveal_strlit("dangling");
                    assert("unmapped"@ != "dangling"@) by { assert("unmapped"@[0] != "dangling"@[0]); }
                    assert(crate::output::context_get(x1.context@, "unmapped"@) == Some(ul@));
                }
                w.push(x);
                proof {
                    reveal_strlit("macro_link");
                    reveal_strlit("unmapped");
                    reveal_strlit("dangling");
                    let u = unmapped_of(g@, *me);
                    let dd = dangling_of(g@, *me);
                    let e0 = ("LONG_ARROW_SUMMARY_STALE"@,
                        "Long arrow '"@ + me.id@ + "' summary is stale ("@ + decimal(u.len()) + " unmapped, "@
                            + decimal(dd.len()) + " dangling)"@,
                        seq![("macro_link"@, ContextValueView::Str(me.id@)), ("unmapped"@, ContextValueView::List(u)),
                            ("dangling"@, ContextValueView::List(dd))]);
                    assert(e0.2[0].0 == "macro_link"@);
                    assert(e0.2[1].0 == "unmapped"@);
                    assert(e0.2[2].0 == "dangling"@);
                    assert(w@[0] == x);
                    assert(crate::output::context_get(x.context@, "macro_link"@) == Some(ContextValueView::Str(me.id@)));
                    assert(crate::output::context_get(x.context@, "unmapped"@) == Some(ContextValueView::List(u)));
                    assert(crate::output::context_get(x.context@, "dangling"@) == Some(ContextValueView::List(dd)));
                    assert(warnings_are(w@, seq![e0]));
                }
            }
            proof {
                assert(warnings_are(w@, stale_expected(*me, g@)));
            }
            let ghost stale = w@;
            if g.len() > 0 {
                let mut ug = ungrounded_warnings(me);
                proof {
                    lemma_warnings_concat(stale, stale_expected(*me, g@), ug@, ungrounded_expected(me.id@, me.assumptions@));
                    assert(expected_for(*me, g@) == stale_expected(*me, g@) + ungrounded_expected(me.id@, me.assumptions@));
                }
                let ghost ugv = ug@;
                w.append(&mut ug);
                proof { assert(w@ == stale + ugv); }
            } else {
                proof {
                    assert(stale_expected(*me, g@) + Seq::<ExpectedWarning>::empty() =~= stale_expected(*me, g@));
                    assert(expected_for(*me, g@) == stale_expected(*me, g@));
                }
            }
            w
        },
    }
}

/// Audits the long arrows of a tree: hygiene warnings, never errors.
pub fn check_macro_edges(tree: &Tree) -> (r: Vec<OutputWarning>)
    ensures
        exists|gs: Seq<Seq<GatheredLink>>| {
            &&& gs.len() == tree.macro_edges@.len()
            &&& forall|k: int| 0 <= k < gs.len() ==> is_gathering(#[trigger] gs[k], *tree, tree.macro_edges@[k])
            &&& warnings_are(r@, expected_all(tree.macro_edges@, gs))
        },
{
    let mes = &tree.macro_edges;
    let mut w: Vec<OutputWarning> = Vec::new();
    let ghost mut gs: Seq<Seq<GatheredLink>> = Seq::empty();
    let mut i: usize = 0;
    while i < mes.len()
        invariant
            i <= mes@.len(),
            mes@ == tree.macro_edges@,
            gs.len() == i,
            forall|k: int| 0 <= k < i ==> is_gathering(#[trigger] gs[k], *tree, mes@[k]),
            warnings_are(w@, expected_all(mes@.take(i as int), gs)),
        decreases mes@.len() - i,
    {
        let g = gather_interior_assumptions(tree, &mes[i]);
        let mut ew = edge_warnings(&mes[i], &g);
        let ghost pre = w@;
        let ghost pgs = gs;
        proof {
            gs = gs.push(g@);
            let t = mes@.take(i + 1);
            assert(t.drop_last() =~= mes@.take(i as int));
            assert(t.last() == mes@[i as int]);
            assert(gs.drop_last() =~= pgs);
            lemma_warnings_concat(pre, expected_all(mes@.take(i as int), pgs), ew@, expected_for(mes@[i as int], g@));
        }
        w.append(&mut ew);
        i = i + 1;
    }
    proof { crate::strutil::lemma_take_all(mes@); }
    w
}

} // verus!
