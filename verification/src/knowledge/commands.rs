//! Knowledge Pool commands: add, edit, rm, inspect, list.
use vstd::prelude::*;
use crate::errors::LtpError;
use crate::knowledge::types::{
    KnowledgeRelation, Confidence, KnowledgeItem, KnowledgeItemView, KnowledgeLink, KnowledgeSource, KnowledgeStatus, KnowledgeType,
};
use crate::link::types::opt_view;
use crate::output::{err_is, quoted_detail, quoted_error, ContextValue, OutputError, OutputWarning};
use crate::strutil::{
    ascii_lower, cat2, cat4, clone_strings, is_ascii_seq, contains_string, filter_seq, has_id, lemma_filter_step, lemma_has_id_views, lemma_take_all,
    owned, views, spec_to_lowercase, to_lowercase,
};
use crate::workspace::counters::{minted, nth_id, Counters};

verus! {

/// Data returned by `knowledge add`.
#[derive(Debug, Clone)]
pub struct KnowledgeAddData {
    pub created_knowledge_id: String,
    pub knowledge_type: KnowledgeType,
    pub label: String,
    pub status: KnowledgeStatus,
    pub confidence: Option<Confidence>,
}

/// Data returned by `knowledge edit`.
#[derive(Debug, Clone)]
pub struct KnowledgeEditData {
    pub id: String,
    pub label: String,
    pub status: KnowledgeStatus,
    pub confidence: Option<Confidence>,
    pub tags: Vec<String>,
}

/// Data returned by `knowledge rm`.
#[derive(Debug, Clone)]
pub struct KnowledgeRmData {
    pub removed: Vec<String>,
    pub failed: Vec<String>,
}

/// Data returned by `knowledge inspect`.
#[derive(Debug, Clone)]
pub struct KnowledgeInspectData {
    pub id: String,
    pub knowledge_type: KnowledgeType,
    pub label: String,
    pub status: KnowledgeStatus,
    pub confidence: Option<Confidence>,
    pub source: KnowledgeSource,
    pub captured: String,
    pub links: Vec<KnowledgeLink>,
    pub tags: Vec<String>,
}

/// Summary of a knowledge item for listing.
#[derive(Debug, Clone)]
pub struct KnowledgeSummary {
    pub id: String,
    pub knowledge_type: KnowledgeType,
    pub label: String,
    pub status: KnowledgeStatus,
    pub confidence: Option<Confidence>,
    pub link_count: usize,
    pub tags: Vec<String>,
}

/// Data returned by `knowledge list`.
#[derive(Debug, Clone)]
pub struct KnowledgeListData {
    pub items: Vec<KnowledgeSummary>,
    pub total: usize,
}

/// An optional text argument where the empty text counts as absent.
pub open spec fn nonempty_arg(o: Option<&str>) -> Option<Seq<char>> {
    match o {
        Some(s) => if s@.len() == 0 { None } else { Some(s@) },
        None => None,
    }
}

fn nonempty_string(o: Option<&str>) -> (r: Option<String>)
    ensures opt_view(r) == nonempty_arg(o),
{
    match o {
        Some(s) => if s.unicode_len() == 0 { None } else { Some(owned(s)) },
        None => None,
    }
}

/// The item that `knowledge add` creates.
pub open spec fn added_item(
    id: Seq<char>,
    knowledge_type: KnowledgeType,
    label: Seq<char>,
    uri: Option<Seq<char>>,
    excerpt: Option<Seq<char>>,
    status: Option<KnowledgeStatus>,
    confidence: Option<Confidence>,
    tags: Option<Seq<String>>,
    captured: Seq<char>,
) -> KnowledgeItemView {
    KnowledgeItemView {
        id,
        knowledge_type,
        label,
        status: match status { Some(s) => s, None => KnowledgeStatus::Unverified },
        confidence: match confidence { Some(c) => Some(c), None => Some(Confidence::Medium) },
        uri,
        excerpt,
        captured,
        links: Seq::empty(),
        tags: match tags { Some(t) => views(t), None => Seq::empty() },
    }
}

/// The data reported for a created item.
pub open spec fn add_data_of(d: KnowledgeAddData, item: KnowledgeItemView) -> bool {
    &&& d.created_knowledge_id@ == item.id
    &&& d.knowledge_type == item.knowledge_type
    &&& d.label@ == item.label
    &&& d.status == item.status
    &&& d.confidence == item.confidence
}

/// `knowledge add` with the capture date given: a label and at least one
/// non-empty source are required; the item gets the next `KN` ID, status
/// `Unverified` and confidence `Medium` unless given, no links.
pub fn knowledge_add_at(
    counters: &mut Counters,
    label: &str,
    knowledge_type: KnowledgeType,
    source_uri: Option<&str>,
    source_excerpt: Option<&str>,
    status: Option<KnowledgeStatus>,
    confidence: Option<Confidence>,
    tags: Option<Vec<String>>,
    captured: String,
) -> (r: Result<(KnowledgeItem, KnowledgeAddData), OutputError>)
    requires
        old(counters).wf(),
        old(counters).room("KN"@, 1),
    ensures
        final(counters).wf(),
        r is Err ==> final(counters).values@ == old(counters).values@,
        label@.len() == 0 ==> err_is(r, "LABEL_REQUIRED"@, "Label cannot be empty"@),
        label@.len() > 0 && nonempty_arg(source_uri) is None && nonempty_arg(source_excerpt) is None
            ==> err_is(r, "SOURCE_REQUIRED"@, "At least one of source-uri or source-excerpt must be provided"@),
        label@.len() > 0 && (nonempty_arg(source_uri) is Some || nonempty_arg(source_excerpt) is Some)
            ==> (r matches Ok((item, d)) && {
                &&& final(counters).values@ == minted(old(counters).values@, "KN"@, 1)
                &&& item@ == added_item(nth_id(old(counters).values@, "KN"@, 1), knowledge_type, label@,
                        nonempty_arg(source_uri), nonempty_arg(source_excerpt), status, confidence,
                        match tags { Some(t) => Some(t@), None => None }, captured@)
                &&& add_data_of(d, item@)
            }),
{
    if label.unicode_len() == 0 {
        return Err(OutputError::new("LABEL_REQUIRED", owned("Label cannot be empty")));
    }
    let source = KnowledgeSource { uri: nonempty_string(source_uri), excerpt: nonempty_string(source_excerpt) };
    if !source.is_valid() {
        return Err(OutputError::new("SOURCE_REQUIRED", owned("At least one of source-uri or source-excerpt must be provided")));
    }
    let id = counters.mint("KN");
    let effective_status = match status { Some(s) => s, None => KnowledgeStatus::Unverified };
    let effective_confidence = match confidence { Some(c) => Some(c), None => Some(Confidence::Medium) };
    let effective_tags = match tags { Some(t) => t, None => Vec::new() };
    let item = KnowledgeItem {
        id: id.clone(),
        knowledge_type,
        label: owned(label),
        status: effective_status,
        confidence: effective_confidence,
        source,
        captured,
        links: Vec::new(),
        tags: effective_tags,
    };
    proof {
        assert(item@.links =~= Seq::empty());
        assert(item@.tags =~= (match tags { Some(t) => views(t@), None => Seq::<Seq<char>>::empty() }));
    }
    let d = KnowledgeAddData {
        created_knowledge_id: id,
        knowledge_type,
        label: owned(label),
        status: effective_status,
        confidence: effective_confidence,
    };
    Ok((item, d))
}

/// `knowledge add`, dated with today's UTC date. Everything but the
/// capture date is as in `knowledge_add_at`.
pub fn knowledge_add(
    counters: &mut Counters,
    label: &str,
    knowledge_type: KnowledgeType,
    source_uri: Option<&str>,
    source_excerpt: Option<&str>,
    status: Option<KnowledgeStatus>,
    confidence: Option<Confidence>,
    tags: Option<Vec<String>>,
) -> (r: Result<(KnowledgeItem, KnowledgeAddData), OutputError>)
    requires
        old(counters).wf(),
        old(counters).room("KN"@, 1),
    ensures
        final(counters).wf(),
        r is Err ==> final(counters).values@ == old(counters).values@,
        label@.len() == 0 ==> err_is(r, "LABEL_REQUIRED"@, "Label cannot be empty"@),
        label@.len() > 0 && nonempty_arg(source_uri) is None && nonempty_arg(source_excerpt) is None
            ==> err_is(r, "SOURCE_REQUIRED"@, "At least one of source-uri or source-excerpt must be provided"@),
        label@.len() > 0 && (nonempty_arg(source_uri) is Some || nonempty_arg(source_excerpt) is Some)
            ==> (r matches Ok((item, d)) && {
                &&& final(counters).values@ == minted(old(counters).values@, "KN"@, 1)
                &&& item@ == added_item(nth_id(old(counters).values@, "KN"@, 1), knowledge_type, label@,
                        nonempty_arg(source_uri), nonempty_arg(source_excerpt), status, confidence,
                        match tags { Some(t) => Some(t@), None => None }, item.captured@)
                &&& add_data_of(d, item@)
            }),
{
    let today = crate::clock::today_ymd();
    knowledge_add_at(counters, label, knowledge_type, source_uri, source_excerpt, status, confidence, tags, today)
}

/// The tags after adding `add` in order: each non-empty tag not yet
/// present is appended.
pub open spec fn tags_after_add(cur: Seq<Seq<char>>, add: Seq<Seq<char>>) -> Seq<Seq<char>>
    decreases add.len(),
{
    if add.len() == 0 {
        cur
    } else {
        let p = tags_after_add(cur, add.drop_last());
        let t = add.last();
        if t.len() > 0 && !p.contains(t) { p.push(t) } else { p }
    }
}

/// The tags kept after removing every tag of `rm`.
pub open spec fn tags_after_rm(cur: Seq<Seq<char>>, rm: Seq<Seq<char>>) -> Seq<Seq<char>> {
    filter_seq(cur, |t: Seq<char>| !rm.contains(t))
}

/// The tags of `rm` that are not among `cur`, in order.
pub open spec fn missing_tags(cur: Seq<Seq<char>>, rm: Seq<Seq<char>>) -> Seq<Seq<char>> {
    filter_seq(rm, |t: Seq<char>| !cur.contains(t))
}

/// `Tag '<tag>' not found on item <id>`.
pub open spec fn tag_not_found_detail(tag: Seq<char>, id: Seq<char>) -> Seq<char> {
    "Tag '"@ + tag + "' not found on item "@ + id
}

fn add_tags_to(tags: &mut Vec<String>, add: &Vec<String>)
    ensures views(final(tags)@) == tags_after_add(views(old(tags)@), views(add@)),
{
    let ghost orig = views(tags@);
    let mut i: usize = 0;
    while i < add.len()
        invariant
            i <= add@.len(),
            views(tags@) == tags_after_add(orig, views(add@).take(i as int)),
        decreases add@.len() - i,
    {
        let t = &add[i];
        proof {
            let a = views(add@).take(i + 1);
            assert(a.drop_last() =~= views(add@).take(i as int));
            assert(a.last() == t@);
            lemma_has_id_views(tags@, t@);
        }
        if t.unicode_len() > 0 && !contains_string(tags, t) {
            let ghost pre = tags@;
            tags.push(t.clone());
            proof { assert(views(tags@) =~= views(pre).push(t@)); }
        }
        i = i + 1;
    }
    proof { lemma_take_all(views(add@)); }
}

fn remove_tags_from(tags: &Vec<String>, rm: &Vec<String>) -> (r: Vec<String>)
    ensures views(r@) == tags_after_rm(views(tags@), views(rm@)),
{
    let ghost p = |t: Seq<char>| !views(rm@).contains(t);
    let mut r: Vec<String> = Vec::new();
    let mut i: usize = 0;
    while i < tags.len()
        invariant
            i <= tags@.len(),
            p == (|t: Seq<char>| !views(rm@).contains(t)),
            views(r@) == filter_seq(views(tags@).take(i as int), p),
        decreases tags@.len() - i,
    {
        proof {
            lemma_filter_step(views(tags@), p, i as int);
            lemma_has_id_views(rm@, tags@[i as int]@);
        }
        if !contains_string(rm, &tags[i]) {
            let ghost pre = r@;
            r.push(tags[i].clone());
            proof { assert(views(r@) =~= views(pre).push(tags@[i as int]@)); }
        }
        i = i + 1;
    }
    proof { lemma_take_all(views(tags@)); }
    r
}

/// The warnings for the tags of `rm` missing from `tags`.
pub open spec fn tag_warnings_are(w: Seq<OutputWarning>, tags: Seq<Seq<char>>, rm: Seq<Seq<char>>, id: Seq<char>) -> bool {
    let m = missing_tags(tags, rm);
    &&& w.len() == m.len()
    &&& forall|k: int| 0 <= k < m.len() ==> (#[trigger] w[k]).code@ == "TAG_NOT_FOUND"@
            && w[k].detail@ == tag_not_found_detail(m[k], id)
}

fn missing_tag_warnings(tags: &Vec<String>, rm: &Vec<String>, id: &str) -> (r: Vec<OutputWarning>)
    ensures tag_warnings_are(r@, views(tags@), views(rm@), id@),
{
    let ghost p = |t: Seq<char>| !views(tags@).contains(t);
    let mut w: Vec<OutputWarning> = Vec::new();
    let mut i: usize = 0;
    while i < rm.len()
        invariant
            i <= rm@.len(),
            p == (|t: Seq<char>| !views(tags@).contains(t)),
            w@.len() == filter_seq(views(rm@).take(i as int), p).len(),
            forall|k: int| 0 <= k < w@.len() ==> (#[trigger] w@[k]).code@ == "TAG_NOT_FOUND"@
                && w@[k].detail@ == tag_not_found_detail(filter_seq(views(rm@).take(i as int), p)[k], id@),
        decreases rm@.len() - i,
    {
        proof {
            lemma_filter_step(views(rm@), p, i as int);
            lemma_has_id_views(tags@, rm@[i as int]@);
        }
        if !contains_string(tags, &rm[i]) {
            let detail = cat4("Tag '", rm[i].as_str(), "' not found on item ", id);
            w.push(OutputWarning::new("TAG_NOT_FOUND", detail));
        }
        i = i + 1;
    }
    proof { lemma_take_all(views(rm@)); }
    w
}

/// `Knowledge item '<id>' not found`.
pub open spec fn knowledge_not_found_detail(id: Seq<char>) -> Seq<char> {
    quoted_detail("Knowledge item"@, id, " not found"@)
}

/// The item after the field edits of `knowledge edit` (tags aside).
pub open spec fn edited_fields(
    item: KnowledgeItemView,
    label: Option<&str>,
    status: Option<KnowledgeStatus>,
    confidence: Option<Confidence>,
    source_uri: Option<&str>,
    source_excerpt: Option<&str>,
) -> KnowledgeItemView {
    KnowledgeItemView {
        label: match label { Some(l) => l@, None => item.label },
        status: match status { Some(s) => s, None => item.status },
        confidence: match confidence { Some(c) => Some(c), None => item.confidence },
        uri: if source_uri is Some { nonempty_arg(source_uri) } else { item.uri },
        excerpt: if source_excerpt is Some { nonempty_arg(source_excerpt) } else { item.excerpt },
        ..item
    }
}

/// The tags of an edited item.
pub open spec fn edited_tags(tags: Seq<Seq<char>>, add: Option<Seq<String>>, rm: Option<Seq<String>>) -> Seq<Seq<char>> {
    let added = match add { Some(a) => tags_after_add(tags, views(a)), None => tags };
    match rm { Some(r) => tags_after_rm(added, views(r)), None => added }
}

/// `knowledge edit` on the item loaded for `id` (`None` when it could not
/// be loaded): an empty new label is refused first, then a missing item,
/// then a source left with neither URI nor excerpt. Tags are added (non-empty
/// ones not yet present) before tags are removed; each tag to remove that the
/// item does not carry gives a warning.
pub fn knowledge_edit(
    id: &str,
    loaded: Option<KnowledgeItem>,
    label: Option<&str>,
    status: Option<KnowledgeStatus>,
    confidence: Option<Confidence>,
    source_uri: Option<&str>,
    source_excerpt: Option<&str>,
    add_tags: Option<Vec<String>>,
    rm_tags: Option<Vec<String>>,
) -> (r: Result<(KnowledgeItem, KnowledgeEditData, Vec<OutputWarning>), OutputError>)
    ensures
        (label matches Some(l) && l@.len() == 0) ==> err_is(r, "LABEL_REQUIRED"@, "Label cannot be empty"@),
        !(label matches Some(l) && l@.len() == 0) && loaded is None
            ==> err_is(r, "KNOWLEDGE_NOT_FOUND"@, knowledge_not_found_detail(id@)),
        !(label matches Some(l) && l@.len() == 0) && (loaded matches Some(old_item) && {
            let e = edited_fields(old_item@, label, status, confidence, source_uri, source_excerpt);
            (source_uri is Some || source_excerpt is Some) && e.uri is None && e.excerpt is None
        }) ==> err_is(r, "SOURCE_REQUIRED"@, "Cannot clear both source-uri and source-excerpt"@),
        !(label matches Some(l) && l@.len() == 0) && (loaded matches Some(old_item) && {
            let e = edited_fields(old_item@, label, status, confidence, source_uri, source_excerpt);
            !((source_uri is Some || source_excerpt is Some) && e.uri is None && e.excerpt is None)
        }) ==> (r matches Ok((item, d, w)) && {
            let old_item = loaded.unwrap();
            let e = edited_fields(old_item@, label, status, confidence, source_uri, source_excerpt);
            let add = match add_tags { Some(a) => Some(a@), None => None };
            let rm = match rm_tags { Some(x) => Some(x@), None => None };
            let added = match add { Some(a) => tags_after_add(old_item@.tags, views(a)), None => old_item@.tags };
            &&& item@ == KnowledgeItemView { tags: edited_tags(old_item@.tags, add, rm), ..e }
            &&& d.id@ == item@.id && d.label@ == item@.label && d.status == item@.status
            &&& d.confidence == item@.confidence && views(d.tags@) == item@.tags
            &&& match rm { Some(x) => tag_warnings_are(w@, added, views(x), id@), None => w@.len() == 0 }
        }),
{
    match label {
        Some(l) => {
            if l.unicode_len() == 0 {
                return Err(OutputError::new("LABEL_REQUIRED", owned("Label cannot be empty")));
            }
        },
        None => {},
    }
    let mut item = match loaded {
        Some(i) => i,
        None => {
            return Err(quoted_error("KNOWLEDGE_NOT_FOUND", "Knowledge item", id, " not found"));
        },
    };
    match label { Some(l) => { item.label = owned(l); }, None => {} }
    match status { Some(s) => { item.status = s; }, None => {} }
    match confidence { Some(c) => { item.confidence = Some(c); }, None => {} }
    let uri_provided = source_uri.is_some();
    let excerpt_provided = source_excerpt.is_some();
    if uri_provided {
        item.source.uri = nonempty_string(source_uri);
    }
    if excerpt_provided {
        item.source.excerpt = nonempty_string(source_excerpt);
    }
    if (uri_provided || excerpt_provided) && !item.source.is_valid() {
        return Err(OutputError::new("SOURCE_REQUIRED", owned("Cannot clear both source-uri and source-excerpt")));
    }
    match &add_tags {
        Some(a) => { add_tags_to(&mut item.tags, a); },
        None => {},
    }
    let mut warnings: Vec<OutputWarning> = Vec::new();
    match &rm_tags {
        Some(x) => {
            warnings = missing_tag_warnings(&item.tags, x, id);
            item.tags = remove_tags_from(&item.tags, x);
        },
        None => {},
    }
    let d = KnowledgeEditData {
        id: item.id.clone(),
        label: item.label.clone(),
        status: item.status,
        confidence: item.confidence,
        tags: clone_strings(&item.tags),
    };
    Ok((item, d, warnings))
}

/// The IDs whose deletion succeeded (`ok`) or failed (`!ok`), in order.
pub open spec fn rm_outcome(ids: Seq<Seq<char>>, deleted: Seq<bool>, ok: bool) -> Seq<Seq<char>>
    decreases ids.len(),
{
    if ids.len() == 0 || deleted.len() == 0 {
        Seq::empty()
    } else {
        let p = rm_outcome(ids.drop_last(), deleted.drop_last(), ok);
        if deleted.last() == ok { p.push(ids.last()) } else { p }
    }
}

/// The report of `knowledge rm`.
pub struct KnowledgeRmReport {
    pub data: KnowledgeRmData,
    pub errors: Vec<OutputError>,
    pub success: bool,
}

/// `knowledge rm`, given for each requested ID whether its deletion
/// succeeded: the IDs are split into removed and failed, each failure gives
/// a `KNOWLEDGE_NOT_FOUND` error carrying the ID, and the command succeeds
/// when something was removed or nothing failed.
pub fn knowledge_rm(ids: &Vec<String>, deleted: &Vec<bool>) -> (r: KnowledgeRmReport)
    requires ids@.len() == deleted@.len(),
    ensures
        views(r.data.removed@) == rm_outcome(views(ids@), deleted@, true),
        views(r.data.failed@) == rm_outcome(views(ids@), deleted@, false),
        r.errors@.len() == r.data.failed@.len(),
        forall|k: int| 0 <= k < r.errors@.len() ==> {
            let e = #[trigger] r.errors@[k];
            &&& e.code@ == "KNOWLEDGE_NOT_FOUND"@
            &&& e.detail@ == knowledge_not_found_detail(r.data.failed@[k]@)
            &&& crate::output::context_get(e.context@, "id"@) == Some(crate::output::ContextValueView::Str(r.data.failed@[k]@))
        },
        r.success == (r.data.removed@.len() > 0 || r.errors@.len() == 0),
{
    let mut removed: Vec<String> = Vec::new();
    let mut failed: Vec<String> = Vec::new();
    let mut errors: Vec<OutputError> = Vec::new();
    let mut i: usize = 0;
    while i < ids.len()
        invariant
            i <= ids@.len(),
            ids@.len() == deleted@.len(),
            views(removed@) == rm_outcome(views(ids@).take(i as int), deleted@.take(i as int), true),
            views(failed@) == rm_outcome(views(ids@).take(i as int), deleted@.take(i as int), false),
            errors@.len() == failed@.len(),
            forall|k: int| 0 <= k < errors@.len() ==> {
                let e = #[trigger] errors@[k];
                &&& e.code@ == "KNOWLEDGE_NOT_FOUND"@
                &&& e.detail@ == knowledge_not_found_detail(failed@[k]@)
                &&& crate::output::context_get(e.context@, "id"@) == Some(crate::output::ContextValueView::Str(failed@[k]@))
            },
        decreases ids@.len() - i,
    {
        proof {
            let a = views(ids@).take(i + 1);
            let b = deleted@.take(i + 1);
            assert(a.drop_last() =~= views(ids@).take(i as int));
            assert(b.drop_last() =~= deleted@.take(i as int));
        }
        let id = &ids[i];
        if deleted[i] {
            let ghost pre = removed@;
            removed.push(id.clone());
            proof { assert(views(removed@) =~= views(pre).push(id@)); }
        } else {
            let ghost pre = failed@;
            failed.push(id.clone());
            proof { assert(views(failed@) =~= views(pre).push(id@)); }
            let e = quoted_error("KNOWLEDGE_NOT_FOUND", "Knowledge item", id.as_str(), " not found");
            errors.push(e.with_context("id", ContextValue::Str(id.clone())));
        }
        i = i + 1;
    }
    proof {
        lemma_take_all(views(ids@));
        lemma_take_all(deleted@);
    }
    let success = removed.len() > 0 || errors.len() == 0;
    KnowledgeRmReport { data: KnowledgeRmData { removed, failed }, errors, success }
}

/// `knowledge inspect` on the item loaded for `id` (`None` when it could
/// not be loaded): all of the item.
pub fn knowledge_inspect(id: &str, loaded: Option<KnowledgeItem>) -> (r: Result<KnowledgeInspectData, OutputError>)
    ensures
        loaded is None ==> err_is(r, "KNOWLEDGE_NOT_FOUND"@, knowledge_not_found_detail(id@)),
        loaded matches Some(item) ==> (r matches Ok(d) && {
            &&& d.id == item.id && d.knowledge_type == item.knowledge_type && d.label == item.label
            &&& d.status == item.status && d.confidence == item.confidence
            &&& d.source.uri == item.source.uri && d.source.excerpt == item.source.excerpt
            &&& d.captured == item.captured && d.links == item.links && d.tags == item.tags
        }),
{
    match loaded {
        None => Err(quoted_error("KNOWLEDGE_NOT_FOUND", "Knowledge item", id, " not found")),
        Some(item) => Ok(KnowledgeInspectData {
            id: item.id,
            knowledge_type: item.knowledge_type,
            label: item.label,
            status: item.status,
            confidence: item.confidence,
            source: item.source,
            captured: item.captured,
            links: item.links,
            tags: item.tags,
        }),
    }
}

/// An item passes the filters of `knowledge list`.
pub open spec fn list_keeps(
    item: KnowledgeItemView,
    type_filter: Option<KnowledgeType>,
    status_filter: Option<KnowledgeStatus>,
    confidence_filter: Option<Confidence>,
    unlinked: bool,
    tag_filter: Option<&str>,
) -> bool {
    &&& (type_filter matches Some(t) ==> item.knowledge_type == t)
    &&& (status_filter matches Some(s) ==> item.status == s)
    &&& (confidence_filter matches Some(c) ==> item.confidence == Some(c))
    &&& (unlinked ==> item.links.len() == 0)
    &&& (tag_filter matches Some(t) ==> item.tags.contains(t@))
}

/// The loaded items that pass the filters, in order.
pub open spec fn listed(
    entries: Seq<(String, Result<KnowledgeItem, LtpError>)>,
    type_filter: Option<KnowledgeType>,
    status_filter: Option<KnowledgeStatus>,
    confidence_filter: Option<Confidence>,
    unlinked: bool,
    tag_filter: Option<&str>,
) -> Seq<KnowledgeItemView>
    decreases entries.len(),
{
    if entries.len() == 0 {
        Seq::empty()
    } else {
        let p = listed(entries.drop_last(), type_filter, status_filter, confidence_filter, unlinked, tag_filter);
        match entries.last().1 {
            Ok(item) => if list_keeps(item@, type_filter, status_filter, confidence_filter, unlinked, tag_filter) {
                p.push(item@)
            } else {
                p
            },
            Err(_) => p,
        }
    }
}

/// `knowledge list` keeps exactly the loaded items that pass every given
/// filter, in order. Each listed item is a loaded item, has the requested
/// type, status and confidence, has no links when only unlinked items are
/// asked for, and carries the requested tag; and each loaded item that
/// passes all of these is listed.
pub proof fn law_knowledge_list_filters(
    entries: Seq<(String, Result<KnowledgeItem, LtpError>)>,
    type_filter: Option<KnowledgeType>,
    status_filter: Option<KnowledgeStatus>,
    confidence_filter: Option<Confidence>,
    unlinked: bool,
    tag_filter: Option<&str>,
)
    ensures
        forall|k: int| #![trigger listed(entries, type_filter, status_filter, confidence_filter, unlinked, tag_filter)[k]]
            0 <= k < listed(entries, type_filter, status_filter, confidence_filter, unlinked, tag_filter).len() ==> {
            let it = listed(entries, type_filter, status_filter, confidence_filter, unlinked, tag_filter)[k];
            &&& (type_filter is Some ==> it.knowledge_type == type_filter->0)
            &&& (status_filter is Some ==> it.status == status_filter->0)
            &&& (confidence_filter is Some ==> it.confidence == confidence_filter)
            &&& (unlinked ==> it.links.len() == 0)
            &&& (tag_filter is Some ==> it.tags.contains((tag_filter->0)@))
            &&& exists|i: int| 0 <= i < entries.len() && (#[trigger] entries[i]).1 is Ok && (entries[i].1->Ok_0)@ == it
        },
        forall|i: int| 0 <= i < entries.len() && (#[trigger] entries[i]).1 is Ok && {
            let it = (entries[i].1->Ok_0)@;
            &&& (type_filter is Some ==> it.knowledge_type == type_filter->0)
            &&& (status_filter is Some ==> it.status == status_filter->0)
            &&& (confidence_filter is Some ==> it.confidence == confidence_filter)
            &&& (unlinked ==> it.links.len() == 0)
            &&& (tag_filter is Some ==> it.tags.contains((tag_filter->0)@))
        } ==> listed(entries, type_filter, status_filter, confidence_filter, unlinked, tag_filter)
            .contains((entries[i].1->Ok_0)@),
    decreases entries.len(),
{
    let l = listed(entries, type_filter, status_filter, confidence_filter, unlinked, tag_filter);
    if entries.len() > 0 {
        let q = entries.drop_last();
        let lq = listed(q, type_filter, status_filter, confidence_filter, unlinked, tag_filter);
        law_knowledge_list_filters(q, type_filter, status_filter, confidence_filter, unlinked, tag_filter);
        let last = entries.len() - 1;
        assert forall|i: int| 0 <= i < q.len() implies #[trigger] q[i] == entries[i] by {}
        assert forall|k: int| #![trigger l[k]] 0 <= k < l.len() implies {
            let it = l[k];
            &&& (type_filter is Some ==> it.knowledge_type == type_filter->0)
            &&& (status_filter is Some ==> it.status == status_filter->0)
            &&& (confidence_filter is Some ==> it.confidence == confidence_filter)
            &&& (unlinked ==> it.links.len() == 0)
            &&& (tag_filter is Some ==> it.tags.contains((tag_filter->0)@))
            &&& exists|i: int| 0 <= i < entries.len() && (#[trigger] entries[i]).1 is Ok && (entries[i].1->Ok_0)@ == it
        } by {
            if k < lq.len() {
                assert(l[k] == lq[k]);
                let i = choose|i: int| 0 <= i < q.len() && (#[trigger] q[i]).1 is Ok && (q[i].1->Ok_0)@ == lq[k];
                assert(entries[i] == q[i]);
            } else {
                assert(entries[last].1 is Ok);
                assert(l[k] == (entries[last].1->Ok_0)@);
            }
        }
        assert forall|i: int| 0 <= i < entries.len() && (#[trigger] entries[i]).1 is Ok && {
            let it = (entries[i].1->Ok_0)@;
            &&& (type_filter is Some ==> it.knowledge_type == type_filter->0)
            &&& (status_filter is Some ==> it.status == status_filter->0)
            &&& (confidence_filter is Some ==> it.confidence == confidence_filter)
            &&& (unlinked ==> it.links.len() == 0)
            &&& (tag_filter is Some ==> it.tags.contains((tag_filter->0)@))
        } implies l.contains((entries[i].1->Ok_0)@) by {
            if i < last {
                assert(entries[i] == q[i]);
                assert(lq.contains((q[i].1->Ok_0)@));
                let k = choose|k: int| 0 <= k < lq.len() && lq[k] == (q[i].1->Ok_0)@;
                assert(l[k] == lq[k]);
            } else {
                assert(l[l.len() - 1] == (entries[last].1->Ok_0)@);
            }
        }
    }
}

/// The entries that could not be loaded, with their errors, in order.
pub open spec fn load_failures(entries: Seq<(String, Result<KnowledgeItem, LtpError>)>) -> Seq<(Seq<char>, LtpError)>
    decreases entries.len(),
{
    if entries.len() == 0 {
        Seq::empty()
    } else {
        let p = load_failures(entries.drop_last());
        match entries.last().1 {
            Ok(_) => p,
            Err(e) => p.push((entries.last().0@, e)),
        }
    }
}

/// A summary describes an item.
pub open spec fn summary_of(s: KnowledgeSummary, item: KnowledgeItemView) -> bool {
    &&& s.id@ == item.id && s.knowledge_type == item.knowledge_type && s.label@ == item.label
    &&& s.status == item.status && s.confidence == item.confidence
    &&& s.link_count == item.links.len() && views(s.tags@) == item.tags
}

/// The result of `knowledge list`.
pub struct KnowledgeListReport {
    pub data: KnowledgeListData,
    pub warnings: Vec<OutputWarning>,
}

fn keeps(
    item: &KnowledgeItem,
    type_filter: Option<KnowledgeType>,
    status_filter: Option<KnowledgeStatus>,
    confidence_filter: Option<Confidence>,
    unlinked: bool,
    tag_filter: Option<&str>,
) -> (r: bool)
    ensures r == list_keeps(item@, type_filter, status_filter, confidence_filter, unlinked, tag_filter),
{
    match type_filter { Some(t) => { if item.knowledge_type != t { return false; } }, None => {} }
    match status_filter { Some(s) => { if item.status != s { return false; } }, None => {} }
    match confidence_filter {
        Some(c) => {
            match item.confidence {
                Some(ic) => { if ic != c { return false; } },
                None => { return false; },
            }
        },
        None => {},
    }
    if unlinked && item.links.len() > 0 {
        return false;
    }
    match tag_filter {
        Some(t) => {
            let ts = owned(t);
            proof { lemma_has_id_views(item.tags@, t@); }
            if !contains_string(&item.tags, &ts) { return false; }
        },
        None => {},
    }
    true
}

/// `knowledge list` over the items loaded for the listed IDs, in order:
/// each load failure gives a `KNOWLEDGE_LOAD_ERROR` warning carrying the ID;
/// the loaded items that pass every filter given are summarised.
pub fn knowledge_list(
    entries: &Vec<(String, Result<KnowledgeItem, LtpError>)>,
    type_filter: Option<KnowledgeType>,
    status_filter: Option<KnowledgeStatus>,
    confidence_filter: Option<Confidence>,
    unlinked: bool,
    tag_filter: Option<&str>,
) -> (r: KnowledgeListReport)
    ensures
        r.data.items@.len() == listed(entries@, type_filter, status_filter, confidence_filter, unlinked, tag_filter).len(),
        forall|k: int| 0 <= k < r.data.items@.len() ==> summary_of(#[trigger] r.data.items@[k],
            listed(entries@, type_filter, status_filter, confidence_filter, unlinked, tag_filter)[k]),
        r.data.total == r.data.items@.len(),
        forall|k: int| 0 <= k < r.data.items@.len() ==> {
            let s = #[trigger] r.data.items@[k];
            &&& (type_filter is Some ==> s.knowledge_type == type_filter->0)
            &&& (status_filter is Some ==> s.status == status_filter->0)
            &&& (confidence_filter is Some ==> s.confidence == confidence_filter)
            &&& (unlinked ==> s.link_count == 0)
            &&& (tag_filter is Some ==> views(s.tags@).contains((tag_filter->0)@))
        },
        r.warnings@.len() == load_failures(entries@).len(),
        forall|k: int| 0 <= k < r.warnings@.len() ==> {
            let w = #[trigger] r.warnings@[k];
            let f = load_failures(entries@)[k];
            &&& w.code@ == "KNOWLEDGE_LOAD_ERROR"@
            &&& w.detail@ == "Failed to load "@ + f.0 + ": "@ + crate::errors::ltp_message(f.1)
            &&& crate::output::context_get(w.context@, "id"@) == Some(crate::output::ContextValueView::Str(f.0))
        },
{
    let ghost lst = |e: Seq<(String, Result<KnowledgeItem, LtpError>)>|
        listed(e, type_filter, status_filter, confidence_filter, unlinked, tag_filter);
    let mut items: Vec<KnowledgeSummary> = Vec::new();
    let mut warnings: Vec<OutputWarning> = Vec::new();
    let mut i: usize = 0;
    while i < entries.len()
        invariant
            i <= entries@.len(),
            lst == (|e: Seq<(String, Result<KnowledgeItem, LtpError>)>|
                listed(e, type_filter, status_filter, confidence_filter, unlinked, tag_filter)),
            items@.len() == lst(entries@.take(i as int)).len(),
            forall|k: int| 0 <= k < items@.len() ==> summary_of(#[trigger] items@[k], lst(entries@.take(i as int))[k]),
            warnings@.len() == load_failures(entries@.take(i as int)).len(),
            forall|k: int| 0 <= k < warnings@.len() ==> {
                let w = #[trigger] warnings@[k];
                let f = load_failures(entries@.take(i as int))[k];
                &&& w.code@ == "KNOWLEDGE_LOAD_ERROR"@
                &&& w.detail@ == "Failed to load "@ + f.0 + ": "@ + crate::errors::ltp_message(f.1)
                &&& crate::output::context_get(w.context@, "id"@) == Some(crate::output::ContextValueView::Str(f.0))
            },
        decreases entries@.len() - i,
    {
        proof {
            let a = entries@.take(i + 1);
            assert(a.drop_last() =~= entries@.take(i as int));
            assert(a.last() == entries@[i as int]);
        }
        let entry = &entries[i];
        match &entry.1 {
            Ok(item) => {
                if keeps(item, type_filter, status_filter, confidence_filter, unlinked, tag_filter) {
                    items.push(KnowledgeSummary {
                        id: item.id.clone(),
                        knowledge_type: item.knowledge_type,
                        label: item.label.clone(),
                        status: item.status,
                        confidence: item.confidence,
                        link_count: item.links.len(),
                        tags: clone_strings(&item.tags),
                    });
                }
            },
            Err(e) => {
                let m = e.message();
                let detail = cat4("Failed to load ", entry.0.as_str(), ": ", m.as_str());
                let w = OutputWarning::new("KNOWLEDGE_LOAD_ERROR", detail);
                warnings.push(w.with_context("id", ContextValue::Str(entry.0.clone())));
            },
        }
        i = i + 1;
    }
    proof {
        lemma_take_all(entries@);
        law_knowledge_list_filters(entries@, type_filter, status_filter, confidence_filter, unlinked, tag_filter);
        let l = listed(entries@, type_filter, status_filter, confidence_filter, unlinked, tag_filter);
        assert forall|k: int| 0 <= k < items@.len() implies {
            let s = #[trigger] items@[k];
            &&& (type_filter is Some ==> s.knowledge_type == type_filter->0)
            &&& (status_filter is Some ==> s.status == status_filter->0)
            &&& (confidence_filter is Some ==> s.confidence == confidence_filter)
            &&& (unlinked ==> s.link_count == 0)
            &&& (tag_filter is Some ==> views(s.tags@).contains((tag_filter->0)@))
        } by {
            assert(summary_of(items@[k], l[k]));
        }
    }
    let total = items.len();
    KnowledgeListReport { data: KnowledgeListData { items, total }, warnings }
}

/// The knowledge type named by a lower-case string.
pub open spec fn knowledge_type_named(l: Seq<char>) -> Option<KnowledgeType> {
    if l == "measurement"@ { Some(KnowledgeType::Measurement) }
    else if l == "testimony"@ { Some(KnowledgeType::Testimony) }
    else if l == "hypothesis"@ { Some(KnowledgeType::Hypothesis) }
    else if l == "document"@ { Some(KnowledgeType::Document) }
    else if l == "observation"@ { Some(KnowledgeType::Observation) }
    else if l == "derived"@ { Some(KnowledgeType::Derived) }
    else { None }
}

/// The knowledge status named by a lower-case string.
pub open spec fn knowledge_status_named(l: Seq<char>) -> Option<KnowledgeStatus> {
    if l == "unverified"@ { Some(KnowledgeStatus::Unverified) }
    else if l == "verified"@ { Some(KnowledgeStatus::Verified) }
    else if l == "refuted"@ { Some(KnowledgeStatus::Refuted) }
    else if l == "superseded"@ { Some(KnowledgeStatus::Superseded) }
    else { None }
}

/// The confidence named by a lower-case string.
pub open spec fn confidence_named(l: Seq<char>) -> Option<Confidence> {
    if l == "high"@ { Some(Confidence::High) }
    else if l == "medium"@ { Some(Confidence::Medium) }
    else if l == "low"@ { Some(Confidence::Low) }
    else { None }
}

/// The relation named by a lower-case string.
pub open spec fn relation_named(l: Seq<char>) -> Option<KnowledgeRelation> {
    if l == "supports"@ { Some(KnowledgeRelation::Supports) }
    else if l == "contradicts"@ { Some(KnowledgeRelation::Contradicts) }
    else if l == "contextualizes"@ { Some(KnowledgeRelation::Contextualizes) }
    else { None }
}

/// The parse of a name: the value it names, or `<what><name in lower case>`.
pub open spec fn parsed<T>(r: Result<T, String>, named: Option<T>, what: Seq<char>, lower: Seq<char>) -> bool {
    match named {
        Some(v) => r == Ok::<T, String>(v),
        None => r matches Err(m) && m@ == what + lower,
    }
}

/// Parses a knowledge type (case-insensitive).
pub fn parse_knowledge_type(s: &str) -> (r: Result<KnowledgeType, String>)
    ensures
        parsed(r, knowledge_type_named(spec_to_lowercase(s@)), "Unknown knowledge type: "@, spec_to_lowercase(s@)),
        is_ascii_seq(s@) ==> (parsed(r, knowledge_type_named(ascii_lower(s@)), "Unknown knowledge type: "@, ascii_lower(s@))),
{
    let l = to_lowercase(s);
    if l == owned("measurement") { Ok(KnowledgeType::Measurement) }
    else if l == owned("testimony") { Ok(KnowledgeType::Testimony) }
    else if l == owned("hypothesis") { Ok(KnowledgeType::Hypothesis) }
    else if l == owned("document") { Ok(KnowledgeType::Document) }
    else if l == owned("observation") { Ok(KnowledgeType::Observation) }
    else if l == owned("derived") { Ok(KnowledgeType::Derived) }
    else { Err(cat2("Unknown knowledge type: ", l.as_str())) }
}

/// Parses a knowledge status (case-insensitive).
pub fn parse_knowledge_status(s: &str) -> (r: Result<KnowledgeStatus, String>)
    ensures
        parsed(r, knowledge_status_named(spec_to_lowercase(s@)), "Unknown knowledge status: "@, spec_to_lowercase(s@)),
        is_ascii_seq(s@) ==> (parsed(r, knowledge_status_named(ascii_lower(s@)), "Unknown knowledge status: "@, ascii_lower(s@))),
{
    let l = to_lowercase(s);
    if l == owned("unverified") { Ok(KnowledgeStatus::Unverified) }
    else if l == owned("verified") { Ok(KnowledgeStatus::Verified) }
    else if l == owned("refuted") { Ok(KnowledgeStatus::Refuted) }
    else if l == owned("superseded") { Ok(KnowledgeStatus::Superseded) }
    else { Err(cat2("Unknown knowledge status: ", l.as_str())) }
}

/// Parses a confidence level (case-insensitive).
pub fn parse_confidence(s: &str) -> (r: Result<Confidence, String>)
    ensures
        parsed(r, confidence_named(spec_to_lowercase(s@)), "Unknown confidence level: "@, spec_to_lowercase(s@)),
        is_ascii_seq(s@) ==> (parsed(r, confidence_named(ascii_lower(s@)), "Unknown confidence level: "@, ascii_lower(s@))),
{
    let l = to_lowercase(s);
    if l == owned("high") { Ok(Confidence::High) }
    else if l == owned("medium") { Ok(Confidence::Medium) }
    else if l == owned("low") { Ok(Confidence::Low) }
    else { Err(cat2("Unknown confidence level: ", l.as_str())) }
}

/// Parses a knowledge relation (case-insensitive).
pub fn parse_knowledge_relation(s: &str) -> (r: Result<KnowledgeRelation, String>)
    ensures
        parsed(r, relation_named(spec_to_lowercase(s@)), "Unknown knowledge relation: "@, spec_to_lowercase(s@)),
        is_ascii_seq(s@) ==> (parsed(r, relation_named(ascii_lower(s@)), "Unknown knowledge relation: "@, ascii_lower(s@))),
{
    let l = to_lowercase(s);
    if l == owned("supports") { Ok(KnowledgeRelation::Supports) }
    else if l == owned("contradicts") { Ok(KnowledgeRelation::Contradicts) }
    else if l == owned("contextualizes") { Ok(KnowledgeRelation::Contextualizes) }
    else { Err(cat2("Unknown knowledge relation: ", l.as_str())) }
}

} // verus!
