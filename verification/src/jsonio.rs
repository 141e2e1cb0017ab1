//! The boundary to the `json` crate: the raw payload text is parsed
//! there, and the opaque parsed value is read field by field into the
//! library's own `RawThing` shape, which the verified decoder works on.
//!
//! Nothing can be stated of what sits inside an opaque `JsonValue`, so
//! the accessors carry no postconditions; everything the library promises
//! is said over the extracted plain values, by `Element::init` and the
//! functions here.

use vstd::prelude::*;
use crate::decode::{RawListing, RawThing, RunStats, StatsModel, lemma_init_counts, spec_init};
use crate::element::{Element, forest_model, lemma_forest_model_index, NodeModel};
use crate::merge::{append_element, splice_forest};

verus! {

#[verifier::external_type_specification]
#[verifier::external_body]
pub struct ExJsonValue(json::JsonValue);

/// Whether `json::parse` accepts this text.  The parser reads nothing but
/// the text, so acceptance is a function of the text alone.
pub uninterp spec fn json_wellformed(s: Seq<char>) -> bool;

/// Relies on `json::parse`: the payload text parsed into a `JsonValue`,
/// or the parse error's message.  The parser is deterministic, so it
/// succeeds exactly on the well-formed texts.
#[verifier::external_body]
fn json_parse(text: &str) -> (r: Result<json::JsonValue, String>)
    ensures
        r is Ok <==> json_wellformed(text@),
{
    match json::parse(text) {
        Ok(v) => Ok(v),
        Err(e) => Err(e.to_string()),
    }
}

/// Relies on `JsonValue`'s indexing by field name: the named member of an
/// object, or the null value for anything else.
#[verifier::external_body]
fn jget<'a>(v: &'a json::JsonValue, key: &str) -> (r: &'a json::JsonValue)
{
    &v[key]
}

/// Relies on `JsonValue::is_null`.
#[verifier::external_body]
fn jis_null(v: &json::JsonValue) -> (r: bool)
{
    v.is_null()
}

/// Relies on `JsonValue::as_str`: the text of a string value, owned.
#[verifier::external_body]
fn jas_str(v: &json::JsonValue) -> (r: Option<String>)
{
    v.as_str().map(str::to_owned)
}

/// Relies on `JsonValue::as_usize`: a whole number value that fits.
#[verifier::external_body]
fn jas_usize(v: &json::JsonValue) -> (r: Option<usize>)
{
    v.as_usize()
}

/// Relies on `JsonValue`'s `Display`: a string value prints as its bare
/// text, a number or boolean as its canonical text, null as `null`, and
/// anything else as its JSON dump.
#[verifier::external_body]
fn jto_string(v: &json::JsonValue) -> (r: String)
{
    v.to_string()
}

/// Relies on `JsonValue::members`: the elements of an array value, cloned
/// into a vector; empty for anything that is not an array.
#[verifier::external_body]
fn jmembers(v: &json::JsonValue) -> (r: Vec<json::JsonValue>)
{
    v.members().cloned().collect()
}

/// One named field of a `data` object, read the way the decoder reads
/// every content field: absent and null give nothing, anything else gives
/// its printed text.
fn field_text(data: &json::JsonValue, key: &str) -> Option<String> {
    let f = jget(data, key);
    if jis_null(f) {
        None
    } else {
        Some(jto_string(f))
    }
}

/// One wire Thing pulled into the library's own shape.  `fuel` bounds the
/// reply nesting that is followed; the caller passes the largest bound,
/// which no real payload approaches.
fn extract_thing(v: &json::JsonValue, fuel: u64) -> RawThing
    decreases fuel,
{
    let data = jget(v, "data");
    let has_data = !jis_null(data);
    let mut more_ids: Vec<String> = Vec::new();
    let members = jmembers(jget(data, "children"));
    let mut i: usize = 0;
    while i < members.len()
        decreases members@.len() - i,
    {
        more_ids.push(jto_string(&members[i]));
        i = i + 1;
    }
    let mut replies: Vec<RawThing> = Vec::new();
    if fuel > 0 && !jis_null(jget(data, "replies")) {
        let rm = jmembers(jget(jget(jget(data, "replies"), "data"), "children"));
        let mut j: usize = 0;
        while j < rm.len()
            invariant
                fuel >= 1,
            decreases rm@.len() - j,
        {
            let t = extract_thing(&rm[j], fuel - 1);
            replies.push(t);
            j = j + 1;
        }
    }
    RawThing {
        kind: jas_str(jget(v, "kind")),
        has_data,
        count: match jas_usize(jget(data, "count")) {
            Some(n) => n,
            None => 0,
        },
        more_ids,
        num_comments: field_text(data, "num_comments"),
        title: field_text(data, "title"),
        url: field_text(data, "url"),
        selftext: field_text(data, "selftext"),
        body: field_text(data, "body"),
        author: field_text(data, "author"),
        ups: field_text(data, "ups"),
        url_overridden_by_dest: field_text(data, "url_overridden_by_dest"),
        name: field_text(data, "name"),
        depth: field_text(data, "depth"),
        permalink: field_text(data, "permalink"),
        id: field_text(data, "id"),
        parent_id: field_text(data, "parent_id"),
        over_18: field_text(data, "over_18"),
        created: field_text(data, "created"),
        edited: field_text(data, "edited"),
        replies,
    }
}

/// A whole response pulled into the library's own shape: an array of
/// listings, each with its row of Things.
fn extract_listings(v: &json::JsonValue) -> Vec<RawListing> {
    let mut out: Vec<RawListing> = Vec::new();
    let members = jmembers(v);
    let mut i: usize = 0;
    while i < members.len()
        decreases members@.len() - i,
    {
        let row = jmembers(jget(jget(&members[i], "data"), "children"));
        let mut children: Vec<RawThing> = Vec::new();
        let mut j: usize = 0;
        while j < row.len()
            decreases row@.len() - j,
        {
            children.push(extract_thing(&row[j], u64::MAX));
            j = j + 1;
        }
        out.push(RawListing { children });
        i = i + 1;
    }
    out
}

/// Parse a whole payload and build its forest under the node budget.
/// Success is owed exactly for a well-formed payload.  What a well-formed
/// payload holds cannot be stated here — the parsed value is opaque — so
/// the promise on success is that the forest and the moved counters are
/// exactly what `Element::init` makes of some raw response under the old
/// counters; on a parse failure nothing moves and the parser's message is
/// handed back.
pub fn decode_root(text: &str, max_elements: usize, stats: &mut RunStats) -> (r: Result<
    Vec<Element>,
    String,
>)
    ensures
        r is Ok <==> json_wellformed(text@),
        match r {
            Ok(v) => exists|raw: Seq<RawListing>|
                {
                    let (fm, sm) = #[trigger] spec_init(raw, max_elements, old(stats).model());
                    forest_model(v@) == fm && final(stats).model() == sm
                },
            Err(_) => *final(stats) == *old(stats),
        },
{
    let parsed = match json_parse(text) {
        Ok(v) => v,
        Err(e) => {
            return Err(e);
        },
    };
    let raw = extract_listings(&parsed);
    let forest = Element::init(&raw, max_elements, stats);
    proof {
        let (fm, sm) = spec_init(raw@, max_elements, old(stats).model());
        assert(forest_model(forest@) == fm && stats.model() == sm);
    }
    Ok(forest)
}

/// How one continuation fetch ended.
#[derive(Debug, Clone, Copy, PartialEq, Eq, Structural)]
pub enum MoreStatus {
    /// The node budget was already reached; nothing was read.
    Skipped,
    /// The payload did not parse; nothing changed.
    Failed,
    /// The batch resolved into a flat row of replies appended at the top
    /// level (fewer than two decoded top-level nodes), or was empty.
    Flat,
    /// The batch was spliced under its anchor node.
    Spliced,
    /// The batch named an anchor the forest does not hold; nothing was
    /// merged and the batch was dropped.
    Discarded,
}

/// What resolving one continuation payload does, given the raw response
/// `raw` it decodes to: decode under the budget, then either append a
/// flat batch's children at the top level or splice the batch under its
/// anchor, dropping the double-counted anchor from the count.
pub open spec fn resolve_model(
    raw: Seq<RawListing>,
    fy: Seq<NodeModel>,
    s: StatsModel,
    max: usize,
) -> (Seq<NodeModel>, StatsModel, MoreStatus) {
    let (batch, s1) = spec_init(raw, max, s);
    if batch.len() < 2 {
        if batch.len() == 1 {
            (fy + batch[0].children, s1, MoreStatus::Flat)
        } else {
            (fy, s1, MoreStatus::Flat)
        }
    } else {
        let (ny, nx, dec) = splice_forest(fy, batch);
        (
            ny,
            StatsModel {
                num_comments: s1.num_comments,
                elements_count: (s1.elements_count - dec) as usize,
                more_elements_count: s1.more_elements_count,
                more_elements: s1.more_elements,
            },
            if nx.len() == 0 {
                MoreStatus::Spliced
            } else {
                MoreStatus::Discarded
            },
        )
    }
}

/// The counting law of one resolution: the node count moves up by one per
/// node the fetch decoded and, for a successful merge, down by exactly
/// the one double-counted anchor; a discarded batch takes nothing off.
pub proof fn lemma_resolve_counts(raw: Seq<RawListing>, fy: Seq<NodeModel>, s: StatsModel, max: usize)
    requires
        s.elements_count < max,
    ensures
        ({
            let (batch, s1) = spec_init(raw, max, s);
            let (ny, sm, st) = resolve_model(raw, fy, s, max);
            &&& s1.elements_count == s.elements_count + crate::decode::forest_count_model(batch)
            &&& (st is Spliced ==> sm.elements_count == s1.elements_count - 1)
            &&& (st is Discarded || st is Flat ==> sm.elements_count == s1.elements_count)
        }),
{
    lemma_init_counts(raw, max, s);
    let (batch, s1) = spec_init(raw, max, s);
    if batch.len() >= 2 {
        crate::decode::lemma_forest_count_ge_len(batch);
        crate::merge::lemma_splice_forest_frame(fy, batch);
        let (ny, nx, dec) = splice_forest(fy, batch);
        if nx.len() == 0 {
            assert(dec == 1);
        } else {
            assert(dec == 0);
        }
    }
}

/// Resolve one fetched continuation payload into the shared forest.
/// `Skipped` comes exactly when the node budget was already reached, and
/// then nothing is read; `Failed` comes exactly when the payload is not
/// well-formed, and then nothing changes.  Otherwise the decoded batch
/// lands in the forest as `resolve_model` says; which raw response a
/// well-formed payload holds cannot be stated here, the parsed value
/// being opaque, so that part of the promise is over some raw response.
pub fn resolve_more(
    body: &str,
    elements: &mut Vec<Element>,
    stats: &mut RunStats,
    max_comments: usize,
) -> (r: MoreStatus)
    requires
        old(stats).elements_count >= 1,
    ensures
        r is Skipped <==> old(stats).elements_count >= max_comments,
        r is Skipped ==> *final(elements) == *old(elements) && *final(stats) == *old(stats),
        r is Failed <==> old(stats).elements_count < max_comments && !json_wellformed(body@),
        r is Failed ==> *final(elements) == *old(elements) && *final(stats) == *old(stats),
        r is Flat || r is Spliced || r is Discarded ==> exists|raw: Seq<RawListing>|
            (
                forest_model(final(elements)@),
                final(stats).model(),
                r,
            ) == #[trigger] resolve_model(
                raw,
                forest_model(old(elements)@),
                old(stats).model(),
                max_comments,
            ),
{
    if stats.elements_count >= max_comments {
        return MoreStatus::Skipped;
    }
    let parsed = match json_parse(body) {
        Ok(v) => v,
        Err(_) => {
            return MoreStatus::Failed;
        },
    };
    let raw = extract_listings(&parsed);
    let ghost s0 = stats.model();
    let mut batch = Element::init(&raw, max_comments, stats);
    proof {
        lemma_init_counts(raw@, max_comments, s0);
        lemma_forest_model_index(batch@);
    }
    if batch.len() < 2 {
        if batch.len() == 1 {
            let first = batch.remove(0);
            let Element { children, .. } = first;
            let mut children = children;
            let ghost kids = children@;
            proof {
                lemma_forest_model_index(old(elements)@);
                lemma_forest_model_index(kids);
            }
            elements.append(&mut children);
            proof {
                let fy = forest_model(old(elements)@);
                let (bm, sm) = spec_init(raw@, max_comments, s0);
                assert(first.model() == bm[0]);
                assert(forest_model(elements@) =~= fy + bm[0].children) by {
                    lemma_forest_model_index(elements@);
                    assert forall|k: int| 0 <= k < elements@.len() implies #[trigger] forest_model(
                        elements@,
                    )[k] == (fy + bm[0].children)[k] by {
                        if k < old(elements)@.len() {
                            assert(elements@[k] == old(elements)@[k]);
                        } else {
                            assert(elements@[k] == kids[k - old(elements)@.len()]);
                            assert(bm[0].children == forest_model(kids));
                        }
                    }
                }
                assert((forest_model(elements@), stats.model(), MoreStatus::Flat) == resolve_model(
                    raw@,
                    forest_model(old(elements)@),
                    old(stats).model(),
                    max_comments,
                ));
            }
            return MoreStatus::Flat;
        }
        proof {
            let (bm, sm) = spec_init(raw@, max_comments, s0);
            assert(bm.len() == 0);
            assert((forest_model(elements@), stats.model(), MoreStatus::Flat) == resolve_model(
                raw@,
                forest_model(old(elements)@),
                old(stats).model(),
                max_comments,
            ));
        }
        return MoreStatus::Flat;
    }
    append_element(&mut batch, elements, stats);
    let merged = batch.is_empty();
    proof {
        let (bm, sm) = spec_init(raw@, max_comments, s0);
        let (ny, nx, dec) = splice_forest(forest_model(old(elements)@), bm);
        crate::merge::lemma_splice_forest_frame(forest_model(old(elements)@), bm);
        assert(dec <= 1 && sm.elements_count >= 1);
        assert(stats.model().elements_count == sm.elements_count - dec);
        assert(stats.model() =~~= resolve_model(
            raw@,
            forest_model(old(elements)@),
            old(stats).model(),
            max_comments,
        ).1);
        lemma_forest_model_index(batch@);
        assert(merged == (nx.len() == 0));
        assert((
            forest_model(elements@),
            stats.model(),
            if merged {
                MoreStatus::Spliced
            } else {
                MoreStatus::Discarded
            },
        ) == resolve_model(
            raw@,
            forest_model(old(elements)@),
            old(stats).model(),
            max_comments,
        ));
    }
    if merged {
        MoreStatus::Spliced
    } else {
        MoreStatus::Discarded
    }
}

} // verus!
