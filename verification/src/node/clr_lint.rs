//! CLR#2 (clarity of entity) linter on node labels.
use vstd::prelude::*;
use crate::output::{context_get, ContextValue, ContextValueView, OutputWarning};
use crate::strutil::{cat3, chars_contain, chars_of, is_substring, owned, spec_to_lowercase, to_lowercase};

verus! {

/// The causal conjunctions searched for, as written (with their spaces).
pub open spec fn conjunction_pattern(k: int) -> Seq<char> {
    if k == 0 { "porque"@ } else if k == 1 { "in order to"@ } else if k == 2 { "because"@ }
    else if k == 3 { " para "@ } else { " y "@ }
}

/// The conjunctions as reported (without surrounding spaces).
pub open spec fn conjunction_name(k: int) -> Seq<char> {
    if k == 0 { "porque"@ } else if k == 1 { "in order to"@ } else if k == 2 { "because"@ }
    else if k == 3 { "para"@ } else { "y"@ }
}

/// Indices (in list order) of the conjunctions occurring in `lower`,
/// among the first `k`.
pub open spec fn conjunction_hits(lower: Seq<char>, k: int) -> Seq<int>
    decreases k,
{
    if k <= 0 {
        seq![]
    } else {
        conjunction_hits(lower, k - 1) + if is_substring(lower, conjunction_pattern(k - 1)) { seq![k - 1] } else { seq![] }
    }
}

/// The conjunctions found in a label, matched on its lowercase form.
pub open spec fn label_hits(label: Seq<char>) -> Seq<int> {
    conjunction_hits(spec_to_lowercase(label), 5)
}

pub(crate) fn conjunction(k: usize) -> (r: (&'static str, &'static str))
    requires k < 5,
    ensures r.0@ == conjunction_pattern(k as int), r.1@ == conjunction_name(k as int),
{
    if k == 0 { ("porque", "porque") } else if k == 1 { ("in order to", "in order to") }
    else if k == 2 { ("because", "because") } else if k == 3 { (" para ", "para") } else { (" y ", "y") }
}

/// Conjunctions occurring in an already lowercased text, in list order.
pub fn find_conjunctions_in(lower: &str) -> (r: Vec<usize>)
    ensures
        r@.len() == conjunction_hits(lower@, 5).len(),
        forall|i: int| 0 <= i < r@.len() ==> #[trigger] r@[i] as int == conjunction_hits(lower@, 5)[i] && r@[i] < 5,
{
    let lc = chars_of(lower);
    let mut r: Vec<usize> = Vec::new();
    let mut k: usize = 0;
    while k < 5
        invariant
            k <= 5,
            lc@ == lower@,
            r@.len() == conjunction_hits(lc@, k as int).len(),
            forall|i: int| 0 <= i < r@.len() ==> #[trigger] r@[i] as int == conjunction_hits(lc@, k as int)[i] && r@[i] < 5,
        decreases 5 - k,
    {
        let (pat, _) = conjunction(k);
        let pc = chars_of(pat);
        let ghost before = conjunction_hits(lc@, k as int);
        if chars_contain(&lc, &pc) {
            r.push(k);
            assert(conjunction_hits(lc@, k + 1) =~= before.push(k as int));
        } else {
            assert(conjunction_hits(lc@, k + 1) =~= before);
        }
        k = k + 1;
    }
    r
}

/// Conjunctions occurring in a label (case-insensitive), in list order:
/// the label is lowercased and scanned by `find_conjunctions_in`.
pub fn find_conjunctions(label: &str) -> (r: Vec<usize>)
    ensures
        r@.len() == label_hits(label@).len(),
        forall|i: int| 0 <= i < r@.len() ==> #[trigger] r@[i] as int == label_hits(label@)[i] && r@[i] < 5,
{
    let lower = to_lowercase(label);
    find_conjunctions_in(lower.as_str())
}

pub open spec fn is_clr2_label_warning(w: OutputWarning, label: Seq<char>, k: int) -> bool {
    &&& w.code@ == "CLR2_CONJUNCTION_DETECTED"@
    &&& w.detail@ == "Causal conjunction detected: '"@ + conjunction_name(k)
            + "'. Consider splitting into separate entities."@
    &&& context_get(w.context@, "label"@) == Some(ContextValueView::Str(label))
}

/// CLR#2 warnings for a label whose lowercase form is `lower`: one for each
/// causal conjunction occurring in `lower`, in list order, naming `label`.
pub fn lint_clr2_lowered(label: &str, lower: &str) -> (r: Vec<OutputWarning>)
    ensures
        r@.len() == conjunction_hits(lower@, 5).len(),
        forall|i: int| 0 <= i < r@.len()
            ==> is_clr2_label_warning(#[trigger] r@[i], label@, conjunction_hits(lower@, 5)[i]),
{
    let hits = find_conjunctions_in(lower);
    let mut warnings: Vec<OutputWarning> = Vec::new();
    let mut i: usize = 0;
    while i < hits.len()
        invariant
            i <= hits@.len(),
            hits@.len() == conjunction_hits(lower@, 5).len(),
            forall|t: int| 0 <= t < hits@.len() ==> #[trigger] hits@[t] as int == conjunction_hits(lower@, 5)[t] && hits@[t] < 5,
            warnings@.len() == i,
            forall|t: int| 0 <= t < i ==> is_clr2_label_warning(#[trigger] warnings@[t], label@, conjunction_hits(lower@, 5)[t]),
        decreases hits@.len() - i,
    {
        let (_, name) = conjunction(hits[i]);
        let detail = cat3("Causal conjunction detected: '", name, "'. Consider splitting into separate entities.");
        let w = OutputWarning::new("CLR2_CONJUNCTION_DETECTED", detail)
            .with_context("label", ContextValue::Str(owned(label)));
        warnings.push(w);
        i = i + 1;
    }
    warnings
}

/// Run CLR#2 linter: one warning for each causal conjunction found in a node
/// label (matched on its lowercase form), in list order. These are
/// non-blocking.
pub fn lint_clr2(label: &str) -> (r: Vec<OutputWarning>)
    ensures
        r@.len() == label_hits(label@).len(),
        forall|i: int| 0 <= i < r@.len() ==> is_clr2_label_warning(#[trigger] r@[i], label@, label_hits(label@)[i]),
{
    let lower = to_lowercase(label);
    lint_clr2_lowered(label, lower.as_str())
}

} // verus!
