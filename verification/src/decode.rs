//! The node decoder and tree builder: one raw "Thing" becomes a node, a
//! listing becomes the initial forest, and pagination stubs are recorded
//! in the run's counters instead of producing nodes.

use vstd::prelude::*;
use crate::element::{Element, Empty, forest_model, lemma_forest_model_index, lemma_forest_model_snoc, NodeModel};
use crate::strutil::{
    chars_eq_str, chars_of, parse_epoch_chars, parse_usize_chars, spec_parse_epoch,
    spec_parse_usize, string_from_chars, suffix_chars,
};
use vstd::string::StringExecFns;

verus! {

/// One wire "Thing", reduced to the plain values the decoder reads: the
/// envelope `kind` (when it is a string), whether `data` was present, the
/// stub fields (`count`, the continuation ids), every content field the
/// decoder looks at (each `None` when absent or null, else its text), and
/// the nested replies.
#[derive(Debug)]
pub struct RawThing {
    pub kind: Option<String>,
    pub has_data: bool,
    pub count: usize,
    pub more_ids: Vec<String>,
    pub num_comments: Option<String>,
    pub title: Option<String>,
    pub url: Option<String>,
    pub selftext: Option<String>,
    pub body: Option<String>,
    pub author: Option<String>,
    pub ups: Option<String>,
    pub url_overridden_by_dest: Option<String>,
    pub name: Option<String>,
    pub depth: Option<String>,
    pub permalink: Option<String>,
    pub id: Option<String>,
    pub parent_id: Option<String>,
    pub over_18: Option<String>,
    pub created: Option<String>,
    pub edited: Option<String>,
    pub replies: Vec<RawThing>,
}

/// One wire listing: its array of Things.
#[derive(Debug)]
pub struct RawListing {
    pub children: Vec<RawThing>,
}

/// The run-scoped counters, one instance per invocation, shared by every
/// decode and merge step of that run: the total node count (starting at
/// one), the declared stub total, the pending continuation ids, and the
/// reply count the provider declared.
#[derive(Debug, Clone)]
pub struct RunStats {
    pub num_comments: usize,
    pub elements_count: usize,
    pub more_elements_count: usize,
    pub more_elements: Vec<String>,
}

/// The mathematical value of the counters.
#[verifier::ext_equal]
pub struct StatsModel {
    pub num_comments: usize,
    pub elements_count: usize,
    pub more_elements_count: usize,
    pub more_elements: Seq<Seq<char>>,
}

impl RunStats {
    /// The value these counters denote.
    pub open spec fn model(self) -> StatsModel {
        StatsModel {
            num_comments: self.num_comments,
            elements_count: self.elements_count,
            more_elements_count: self.more_elements_count,
            more_elements: self.more_elements.deep_view(),
        }
    }

    /// Fresh counters: the node count starts at one, standing for the
    /// enclosing run itself, as the progress report counts it.
    pub fn new() -> (r: RunStats)
        ensures
            r.model() == (StatsModel {
                num_comments: 0,
                elements_count: 1,
                more_elements_count: 0,
                more_elements: Seq::<Seq<char>>::empty(),
            }),
    {
        let r = RunStats {
            num_comments: 0,
            elements_count: 1,
            more_elements_count: 0,
            more_elements: Vec::new(),
        };
        proof {
            assert(r.more_elements.deep_view() =~= Seq::<Seq<char>>::empty());
        }
        r
    }
}

/// The text of an optional field, empty when absent.
pub open spec fn opt_or_empty(f: Option<String>) -> Seq<char> {
    match f {
        Some(s) => s@,
        None => Seq::empty(),
    }
}

/// Extend assembled node text by one content part: absent and empty parts
/// change nothing, and parts after the first are separated by a newline.
pub open spec fn text_part(acc: Seq<char>, part: Option<String>) -> Seq<char> {
    match part {
        None => acc,
        Some(p) => if p@.len() == 0 {
            acc
        } else if acc.len() == 0 {
            p@
        } else {
            acc + "\n"@ + p@
        },
    }
}

/// A node's text: whichever of `url`, `title`, `selftext`, `body` are
/// present and non-empty, in that order, joined by newlines.
pub open spec fn node_text(t: RawThing) -> Seq<char> {
    text_part(text_part(text_part(text_part(Seq::empty(), t.url), t.title), t.selftext), t.body)
}

/// The upvote count a field denotes: a parse failure or an absent field
/// counts as zero.
pub open spec fn ups_value(f: Option<String>) -> usize {
    match f {
        None => 0,
        Some(s) => match spec_parse_usize(s@) {
            Some(n) => n,
            None => 0,
        },
    }
}

/// The two-character type tag, taken from the front of the `name` field
/// (the provider embeds the tag in the fully qualified name).  A name
/// shorter than two characters is kept whole.
pub open spec fn kind_value(f: Option<String>) -> Seq<char> {
    let n = opt_or_empty(f);
    if n.len() >= 2 {
        n.take(2)
    } else {
        n
    }
}

/// The declared depth, `0` when absent.
pub open spec fn depth_value(f: Option<String>) -> Seq<char> {
    match f {
        Some(s) => s@,
        None => "0"@,
    }
}

/// The parent id with its three-character `XY_` type prefix stripped;
/// kept whole unless it is longer than the prefix.
pub open spec fn parent_value(f: Option<String>) -> Seq<char> {
    let p = opt_or_empty(f);
    if p.len() > 3 {
        p.skip(3)
    } else {
        p
    }
}

/// The adult flag: the text `true` and nothing else.
pub open spec fn adult_value(f: Option<String>) -> bool {
    match f {
        Some(s) => s@ == "true"@,
        None => false,
    }
}

/// A timestamp field: absent reads as the `usize::MAX` sentinel, present
/// text as `spec_parse_epoch` reads it.
pub open spec fn epoch_value(f: Option<String>) -> usize {
    match f {
        Some(s) => spec_parse_epoch(s@),
        None => usize::MAX,
    }
}

/// Whether the Thing is a pagination stub: its envelope kind is the text
/// `more`.
pub open spec fn is_more(t: RawThing) -> bool {
    match t.kind {
        Some(k) => k@ == "more"@,
        None => false,
    }
}

/// Addition that stops at the largest representable count.
pub open spec fn sat_add(a: usize, b: usize) -> usize {
    if a + b > usize::MAX {
        usize::MAX
    } else {
        (a + b) as usize
    }
}

/// The counters after a stub is recorded: its declared count joins the
/// stub total and its continuation ids join the pending list.
pub open spec fn record_stub(t: RawThing, s: StatsModel) -> StatsModel {
    StatsModel {
        num_comments: s.num_comments,
        elements_count: s.elements_count,
        more_elements_count: sat_add(s.more_elements_count, t.count),
        more_elements: s.more_elements + t.more_ids.deep_view(),
    }
}

/// The counters after the declared reply total is read off a content
/// node: a present, non-empty `num_comments` field overwrites it.
pub open spec fn note_comments(t: RawThing, s: StatsModel) -> StatsModel {
    match t.num_comments {
        Some(nc) => if nc@.len() > 0 {
            StatsModel {
                num_comments: match spec_parse_usize(nc@) {
                    Some(n) => n,
                    None => 0,
                },
                elements_count: s.elements_count,
                more_elements_count: s.more_elements_count,
                more_elements: s.more_elements,
            }
        } else {
            s
        },
        None => s,
    }
}

/// The value of the node a content Thing decodes to, given the values of
/// its decoded replies.
pub open spec fn node_value(t: RawThing, children: Seq<NodeModel>) -> NodeModel {
    NodeModel {
        author: opt_or_empty(t.author),
        data: node_text(t),
        kind: kind_value(t.name),
        url: opt_or_empty(t.url_overridden_by_dest),
        ups: ups_value(t.ups),
        children,
        depth: depth_value(t.depth),
        permalink: opt_or_empty(t.permalink),
        id: opt_or_empty(t.id),
        parent_id: parent_value(t.parent_id),
        over_18: adult_value(t.over_18),
        created: epoch_value(t.created),
        edited: epoch_value(t.edited),
    }
}

/// What decoding one Thing produces and how it moves the counters.  With
/// the node budget used up, or without a `data` object, nothing happens.
/// A stub is recorded in the counters and produces no node.  A content
/// Thing notes the declared reply total, counts itself, then decodes its
/// replies under the moved counters.
///
/// Every node that is produced is counted, deliberately including content
/// whose author was deleted or removed: such nodes still occupy the
/// budget and appear in the forest like any other.
pub open spec fn spec_create(t: RawThing, max: usize, s: StatsModel) -> (Option<NodeModel>, StatsModel)
    decreases t, 1int,
{
    if s.elements_count >= max {
        (None, s)
    } else if !t.has_data {
        (None, s)
    } else if is_more(t) {
        (None, record_stub(t, s))
    } else {
        let s1 = note_comments(t, s);
        let s2 = StatsModel {
            num_comments: s1.num_comments,
            elements_count: (s1.elements_count + 1) as usize,
            more_elements_count: s1.more_elements_count,
            more_elements: s1.more_elements,
        };
        let (children, s3) = spec_children(t.replies@, max, s2);
        (Some(node_value(t, children)), s3)
    }
}

/// What decoding a row of Things produces: each in turn, stopping as soon
/// as the node budget is reached.
pub open spec fn spec_children(ts: Seq<RawThing>, max: usize, s: StatsModel) -> (
    Seq<NodeModel>,
    StatsModel,
)
    decreases ts, 0int,
{
    if ts.len() == 0 {
        (Seq::empty(), s)
    } else if s.elements_count >= max {
        (Seq::empty(), s)
    } else {
        let (r0, s0) = spec_create(ts[0], max, s);
        let (rest, s1) = spec_children(ts.drop_first(), max, s0);
        (
            match r0 {
                Some(e) => seq![e] + rest,
                None => rest,
            },
            s1,
        )
    }
}

/// What decoding a whole response produces: the rows of all its listings,
/// in order, under one running budget.
pub open spec fn spec_init(ls: Seq<RawListing>, max: usize, s: StatsModel) -> (
    Seq<NodeModel>,
    StatsModel,
)
    decreases ls,
{
    if ls.len() == 0 {
        (Seq::empty(), s)
    } else {
        let (f0, s0) = spec_children(ls[0].children@, max, s);
        let (rest, s1) = spec_init(ls.drop_first(), max, s0);
        (f0 + rest, s1)
    }
}

/// The text of an optional field as an owned string, empty when absent.
fn clone_or_empty(f: &Option<String>) -> (r: String)
    ensures
        r@ == opt_or_empty(*f),
{
    match f {
        Some(s) => s.clone(),
        None => String::new(),
    }
}

/// Extend assembled node text by one content part.
fn add_text_part(total: String, part: &Option<String>) -> (r: String)
    ensures
        r@ == text_part(total@, *part),
{
    match part {
        None => total,
        Some(p) => {
            if p.as_str().is_empty() {
                total
            } else if total.as_str().is_empty() {
                p.clone()
            } else {
                let mut t = total;
                t.append("\n");
                t.append(p.as_str());
                t
            }
        },
    }
}

impl Element {
    /// Decode one raw Thing, moving the run counters as `spec_create`
    /// says: `None` for a used-up budget, a missing `data` object, or a
    /// stub (which is recorded in the counters); otherwise the node with
    /// its decoded replies.
    pub fn create(child: &RawThing, max_elements: usize, stats: &mut RunStats) -> (r: Option<
        Element,
    >)
        ensures
            ({
                let (rm, sm) = spec_create(*child, max_elements, old(stats).model());
                &&& final(stats).model() == sm
                &&& match r {
                    Some(e) => rm matches Some(m) && e.model() == m,
                    None => rm is None,
                }
            }),
        decreases *child, 0int,
    {
        if stats.elements_count >= max_elements {
            return None;
        }
        if !child.has_data {
            return None;
        }
        let more = match &child.kind {
            Some(k) => chars_eq_str(&chars_of(k.as_str()), "more"),
            None => false,
        };
        if more {
            let room = usize::MAX - stats.more_elements_count;
            if room < child.count {
                stats.more_elements_count = usize::MAX;
            } else {
                stats.more_elements_count = stats.more_elements_count + child.count;
            }
            let ghost dv0 = stats.more_elements.deep_view();
            let ghost nc0 = stats.num_comments;
            let ghost ec0 = stats.elements_count;
            let ghost mc0 = stats.more_elements_count;
            let mut i: usize = 0;
            proof {
                assert(stats.more_elements.deep_view() =~= dv0 + child.more_ids.deep_view().take(
                    0,
                ));
            }
            while i < child.more_ids.len()
                invariant
                    i <= child.more_ids@.len(),
                    stats.num_comments == nc0,
                    stats.elements_count == ec0,
                    stats.more_elements_count == mc0,
                    stats.more_elements.deep_view() == dv0 + child.more_ids.deep_view().take(
                        i as int,
                    ),
                decreases child.more_ids@.len() - i,
            {
                let ghost pre_v = stats.more_elements@;
                let ghost pre_dv = stats.more_elements.deep_view();
                let id = child.more_ids[i].clone();
                proof {
                    assert(id@ == child.more_ids@[i as int]@);
                }
                stats.more_elements.push(id);
                i = i + 1;
                proof {
                    assert(stats.more_elements@.len() == pre_v.len() + 1);
                    assert(pre_dv.len() == pre_v.len());
                    assert(stats.more_elements.deep_view().len() == pre_v.len() + 1);
                    assert(child.more_ids.deep_view().len() == child.more_ids@.len());
                    assert(pre_dv == dv0 + child.more_ids.deep_view().take(i - 1));
                    assert(pre_v.len() == dv0.len() + (i - 1));
                    assert forall|j: int| 0 <= j < pre_v.len() implies #[trigger] stats
                        .more_elements
                        .deep_view()[j] == pre_dv[j] by {
                        assert(stats.more_elements@[j] == pre_v[j]);
                    }
                    assert(stats.more_elements.deep_view()[pre_v.len() as int]
                        == child.more_ids@[i - 1]@);
                    assert(child.more_ids.deep_view()[i - 1] == child.more_ids@[i - 1].deep_view());
                    assert(stats.more_elements.deep_view() =~~= dv0
                        + child.more_ids.deep_view().take(i as int));
                }
            }
            proof {
                assert(child.more_ids.deep_view().take(child.more_ids@.len() as int)
                    =~= child.more_ids.deep_view());
                assert(stats.model() =~~= record_stub(*child, old(stats).model()));
            }
            return None;
        }
        match &child.num_comments {
            Some(nc) => if !nc.as_str().is_empty() {
                stats.num_comments = match parse_usize_chars(&chars_of(nc.as_str())) {
                    Some(n) => n,
                    None => 0,
                };
            },
            None => {},
        }
        proof {
            assert(stats.model() == note_comments(*child, old(stats).model()));
        }
        stats.elements_count = stats.elements_count + 1;
        let ghost pre_children = stats.model();
        let children = match Self::get_replies(&child.replies, max_elements, stats) {
            Ok(v) => v,
            Err(_) => Vec::new(),
        };
        let ghost cm = spec_children(child.replies@, max_elements, pre_children).0;
        proof {
            if children@.len() == 0 {
                assert(children@ =~= Seq::<Element>::empty());
                assert(forest_model(children@) == Seq::<NodeModel>::empty());
                if cm.len() == 0 {
                    assert(cm =~= Seq::<NodeModel>::empty());
                }
            }
            assert(forest_model(children@) == cm);
        }
        let mut total = String::new();
        total = add_text_part(total, &child.url);
        total = add_text_part(total, &child.title);
        total = add_text_part(total, &child.selftext);
        total = add_text_part(total, &child.body);
        let kind = match &child.name {
            Some(n) => {
                let ch = chars_of(n.as_str());
                if ch.len() >= 2 {
                    let mut two: Vec<char> = Vec::new();
                    two.push(ch[0]);
                    two.push(ch[1]);
                    proof {
                        assert(two@ =~= n@.take(2));
                    }
                    string_from_chars(&two)
                } else {
                    n.clone()
                }
            },
            None => String::new(),
        };
        let parent_id = match &child.parent_id {
            Some(p) => {
                let ch = chars_of(p.as_str());
                if ch.len() > 3 {
                    string_from_chars(&suffix_chars(&ch, 3))
                } else {
                    p.clone()
                }
            },
            None => String::new(),
        };
        let ups = match &child.ups {
            Some(s) => match parse_usize_chars(&chars_of(s.as_str())) {
                Some(n) => n,
                None => 0,
            },
            None => 0,
        };
        let depth = match &child.depth {
            Some(s) => s.clone(),
            None => String::from_str("0"),
        };
        let over_18 = match &child.over_18 {
            Some(s) => chars_eq_str(&chars_of(s.as_str()), "true"),
            None => false,
        };
        let created = match &child.created {
            Some(s) => parse_epoch_chars(&chars_of(s.as_str())),
            None => usize::MAX,
        };
        let edited = match &child.edited {
            Some(s) => parse_epoch_chars(&chars_of(s.as_str())),
            None => usize::MAX,
        };
        let e = Element {
            author: clone_or_empty(&child.author),
            data: total,
            kind,
            url: clone_or_empty(&child.url_overridden_by_dest),
            ups,
            children,
            depth,
            permalink: clone_or_empty(&child.permalink),
            id: clone_or_empty(&child.id),
            parent_id,
            over_18,
            created,
            edited,
        };
        proof {
            assert(e.model() =~~= node_value(*child, cm));
        }
        Some(e)
    }

    /// Decode a row of reply Things under the running budget; `Err` when
    /// nothing was produced, which a caller reads as "no replies".
    fn get_replies(replies: &Vec<RawThing>, max_elements: usize, stats: &mut RunStats) -> (r:
        Result<Vec<Element>, Empty>)
        ensures
            ({
                let (cm, sm) = spec_children(replies@, max_elements, old(stats).model());
                &&& final(stats).model() == sm
                &&& match r {
                    Ok(v) => forest_model(v@) == cm && v@.len() > 0,
                    Err(_) => cm.len() == 0,
                }
            }),
        decreases *replies, 1int,
    {
        let out = Self::decode_batch(replies, max_elements, stats);
        if out.len() > 0 {
            proof {
                lemma_forest_model_index(out@);
            }
            Ok(out)
        } else {
            proof {
                lemma_forest_model_index(out@);
            }
            Err(Empty {})
        }
    }

    /// Decode a row of Things in order, stopping at the node budget.
    fn decode_batch(things: &Vec<RawThing>, max_elements: usize, stats: &mut RunStats) -> (r: Vec<
        Element,
    >)
        ensures
            ({
                let (cm, sm) = spec_children(things@, max_elements, old(stats).model());
                &&& final(stats).model() == sm
                &&& forest_model(r@) == cm
            }),
        decreases *things, 0int,
    {
        let ghost fc = spec_children(things@, max_elements, old(stats).model()).0;
        let ghost fs = spec_children(things@, max_elements, old(stats).model()).1;
        let mut out: Vec<Element> = Vec::new();
        let mut i: usize = 0;
        proof {
            assert(things@.skip(0) =~= things@);
            assert(forest_model(out@) =~= Seq::<NodeModel>::empty());
        }
        while i < things.len() && stats.elements_count < max_elements
            invariant
                i <= things@.len(),
                fc == forest_model(out@) + spec_children(
                    things@.skip(i as int),
                    max_elements,
                    stats.model(),
                ).0,
                fs == spec_children(things@.skip(i as int), max_elements, stats.model()).1,
            decreases things@.len() - i,
        {
            let ghost pre = stats.model();
            let ghost rem = things@.skip(i as int);
            proof {
                assert(rem.len() > 0);
                assert(rem[0] == things@[i as int]);
                assert(rem.drop_first() =~= things@.skip(i + 1));
            }
            let created = Self::create(&things[i], max_elements, stats);
            match created {
                Some(e) => {
                    proof {
                        lemma_forest_model_snoc(out@, e);
                        let (r0, s0) = spec_create(things@[i as int], max_elements, pre);
                        let (rest, s1) = spec_children(things@.skip(i + 1), max_elements, s0);
                        assert(spec_children(rem, max_elements, pre).0 == seq![e.model()] + rest);
                        assert(forest_model(out@.push(e)) + rest =~= forest_model(out@) + (seq![
                            e.model(),
                        ] + rest));
                    }
                    out.push(e);
                },
                None => {},
            }
            i = i + 1;
        }
        proof {
            if i == things@.len() {
                assert(things@.skip(i as int) =~= Seq::<RawThing>::empty());
            }
            assert(spec_children(things@.skip(i as int), max_elements, stats.model()).0
                =~= Seq::<NodeModel>::empty());
            assert(fc =~= forest_model(out@));
        }
        out
    }

    /// Build the initial forest from a whole response: every listing's
    /// row of Things, decoded in order under one running budget.
    pub fn init(data: &Vec<RawListing>, max_elements: usize, stats: &mut RunStats) -> (r: Vec<
        Element,
    >)
        ensures
            ({
                let (fm, sm) = spec_init(data@, max_elements, old(stats).model());
                &&& final(stats).model() == sm
                &&& forest_model(r@) == fm
            }),
    {
        let ghost fm = spec_init(data@, max_elements, old(stats).model()).0;
        let ghost sm = spec_init(data@, max_elements, old(stats).model()).1;
        let mut out: Vec<Element> = Vec::new();
        let mut i: usize = 0;
        proof {
            assert(data@.skip(0) =~= data@);
            assert(forest_model(out@) =~= Seq::<NodeModel>::empty());
        }
        while i < data.len()
            invariant
                i <= data@.len(),
                fm == forest_model(out@) + spec_init(
                    data@.skip(i as int),
                    max_elements,
                    stats.model(),
                ).0,
                sm == spec_init(data@.skip(i as int), max_elements, stats.model()).1,
            decreases data@.len() - i,
        {
            let ghost pre = stats.model();
            let ghost rem = data@.skip(i as int);
            proof {
                assert(rem.len() > 0);
                assert(rem[0] == data@[i as int]);
                assert(rem.drop_first() =~= data@.skip(i + 1));
            }
            let mut batch = Self::decode_batch(&data[i].children, max_elements, stats);
            proof {
                let (f0, s0) = spec_children(data@[i as int].children@, max_elements, pre);
                let (rest, s1) = spec_init(data@.skip(i + 1), max_elements, s0);
                lemma_forest_model_index(out@);
                lemma_forest_model_index(batch@);
                lemma_forest_model_index(out@ + batch@);
                assert(forest_model(out@ + batch@) =~= forest_model(out@) + forest_model(batch@));
                assert((forest_model(out@) + f0) + rest =~= forest_model(out@) + (f0 + rest));
            }
            out.append(&mut batch);
            i = i + 1;
        }
        proof {
            assert(data@.skip(i as int) =~= Seq::<RawListing>::empty());
            assert(fm =~= forest_model(out@));
        }
        out
    }
}

/// The number of nodes of one node's whole subtree, the node included.
pub open spec fn node_count_model(m: NodeModel) -> nat
    decreases m,
{
    1 + forest_count_model(m.children)
}

/// The number of nodes of a whole forest.
pub open spec fn forest_count_model(s: Seq<NodeModel>) -> nat
    decreases s,
{
    if s.len() == 0 {
        0
    } else {
        node_count_model(s[0]) + forest_count_model(s.drop_first())
    }
}

/// Decoding one Thing moves the node counter up by exactly the size of
/// the produced subtree — one per node materialized, none for a stub —
/// and never past the budget it started under.
pub proof fn lemma_create_counts(t: RawThing, max: usize, s: StatsModel)
    ensures
        ({
            let (rm, sm) = spec_create(t, max, s);
            &&& sm.elements_count == s.elements_count + (match rm {
                Some(m) => node_count_model(m),
                None => 0,
            })
            &&& (s.elements_count <= max ==> sm.elements_count <= max)
            &&& sm.elements_count >= s.elements_count
        }),
    decreases t, 1int,
{
    if s.elements_count >= max {
    } else if !t.has_data {
    } else if is_more(t) {
    } else {
        let s1 = note_comments(t, s);
        let s2 = StatsModel {
            num_comments: s1.num_comments,
            elements_count: (s1.elements_count + 1) as usize,
            more_elements_count: s1.more_elements_count,
            more_elements: s1.more_elements,
        };
        lemma_children_counts(t.replies@, max, s2);
    }
}

/// The row form of the counting law.
pub proof fn lemma_children_counts(ts: Seq<RawThing>, max: usize, s: StatsModel)
    ensures
        ({
            let (cm, sm) = spec_children(ts, max, s);
            &&& sm.elements_count == s.elements_count + forest_count_model(cm)
            &&& (s.elements_count <= max ==> sm.elements_count <= max)
            &&& sm.elements_count >= s.elements_count
        }),
    decreases ts, 0int,
{
    if ts.len() == 0 {
    } else if s.elements_count >= max {
    } else {
        let (r0, s0) = spec_create(ts[0], max, s);
        lemma_create_counts(ts[0], max, s);
        lemma_children_counts(ts.drop_first(), max, s0);
        let (rest, s1) = spec_children(ts.drop_first(), max, s0);
        match r0 {
            Some(e) => {
                assert((seq![e] + rest).drop_first() =~= rest);
                assert((seq![e] + rest)[0] == e);
            },
            None => {},
        }
    }
}

/// The whole-response form of the counting law: the counter moves up by
/// exactly one per decoded node.
pub proof fn lemma_init_counts(ls: Seq<RawListing>, max: usize, s: StatsModel)
    ensures
        ({
            let (fm, sm) = spec_init(ls, max, s);
            &&& sm.elements_count == s.elements_count + forest_count_model(fm)
            &&& (s.elements_count <= max ==> sm.elements_count <= max)
            &&& sm.elements_count >= s.elements_count
        }),
    decreases ls,
{
    if ls.len() > 0 {
        lemma_children_counts(ls[0].children@, max, s);
        let (f0, s0) = spec_children(ls[0].children@, max, s);
        lemma_init_counts(ls.drop_first(), max, s0);
        let (rest, s1) = spec_init(ls.drop_first(), max, s0);
        lemma_forest_count_concat(f0, rest);
    }
}

/// A forest holds at least one node per tree.
pub proof fn lemma_forest_count_ge_len(s: Seq<NodeModel>)
    ensures
        forest_count_model(s) >= s.len(),
    decreases s,
{
    if s.len() > 0 {
        lemma_forest_count_ge_len(s.drop_first());
        assert(node_count_model(s[0]) >= 1);
    }
}

/// Node counts add up across a join of forests.
pub proof fn lemma_forest_count_concat(a: Seq<NodeModel>, b: Seq<NodeModel>)
    ensures
        forest_count_model(a + b) == forest_count_model(a) + forest_count_model(b),
    decreases a,
{
    if a.len() == 0 {
        assert(a + b =~= b);
    } else {
        assert((a + b).drop_first() =~= a.drop_first() + b);
        assert((a + b)[0] == a[0]);
        lemma_forest_count_concat(a.drop_first(), b);
    }
}

/// `b` is `a` with its pagination stubs removed, order kept.
pub open spec fn stubs_stripped(a: Seq<RawThing>, b: Seq<RawThing>) -> bool
    decreases a.len(),
{
    if a.len() == 0 {
        b.len() == 0
    } else if is_more(a[0]) {
        stubs_stripped(a.drop_first(), b)
    } else {
        b.len() > 0 && b[0] == a[0] && stubs_stripped(a.drop_first(), b.drop_first())
    }
}

/// What one Thing decodes to depends on the counters only through the
/// node count: two runs whose counts agree produce the same node and move
/// the count the same way.
pub proof fn lemma_create_count_only(t: RawThing, max: usize, s: StatsModel, s2: StatsModel)
    requires
        s.elements_count == s2.elements_count,
    ensures
        spec_create(t, max, s).0 == spec_create(t, max, s2).0,
        spec_create(t, max, s).1.elements_count == spec_create(t, max, s2).1.elements_count,
    decreases t, 1int,
{
    if s.elements_count >= max || !t.has_data || is_more(t) {
    } else {
        let a1 = note_comments(t, s);
        let b1 = note_comments(t, s2);
        let a2 = StatsModel {
            num_comments: a1.num_comments,
            elements_count: (a1.elements_count + 1) as usize,
            more_elements_count: a1.more_elements_count,
            more_elements: a1.more_elements,
        };
        let b2 = StatsModel {
            num_comments: b1.num_comments,
            elements_count: (b1.elements_count + 1) as usize,
            more_elements_count: b1.more_elements_count,
            more_elements: b1.more_elements,
        };
        lemma_children_count_only(t.replies@, max, a2, b2);
    }
}

/// The row form of the count-only law.
pub proof fn lemma_children_count_only(ts: Seq<RawThing>, max: usize, s: StatsModel, s2: StatsModel)
    requires
        s.elements_count == s2.elements_count,
    ensures
        spec_children(ts, max, s).0 == spec_children(ts, max, s2).0,
        spec_children(ts, max, s).1.elements_count == spec_children(ts, max, s2).1.elements_count,
    decreases ts, 0int,
{
    if ts.len() == 0 || s.elements_count >= max {
    } else {
        lemma_create_count_only(ts[0], max, s, s2);
        let (r0a, s0a) = spec_create(ts[0], max, s);
        let (r0b, s0b) = spec_create(ts[0], max, s2);
        lemma_children_count_only(ts.drop_first(), max, s0a, s0b);
    }
}

/// Pagination stubs register in the counters and nothing else: a row and
/// the same row with its stubs removed decode to the same nodes and end
/// at the same node count, whenever the two runs start from the same
/// count.  One node is counted per content Thing decoded, never for a
/// stub.
pub proof fn lemma_stubs_only_register(
    a: Seq<RawThing>,
    b: Seq<RawThing>,
    max: usize,
    s: StatsModel,
    s2: StatsModel,
)
    requires
        stubs_stripped(a, b),
        s.elements_count == s2.elements_count,
    ensures
        spec_children(a, max, s).0 == spec_children(b, max, s2).0,
        spec_children(a, max, s).1.elements_count == spec_children(b, max, s2).1.elements_count,
    decreases a.len(),
{
    if a.len() == 0 {
    } else if s.elements_count >= max {
        lemma_stripped_budget_exhausted(b, max, s2);
    } else if is_more(a[0]) {
        let (r0, s0) = spec_create(a[0], max, s);
        assert(r0 is None && s0.elements_count == s.elements_count);
        lemma_stubs_only_register(a.drop_first(), b, max, s0, s2);
    } else {
        assert(b.len() > 0 && b[0] == a[0]);
        lemma_create_count_only(a[0], max, s, s2);
        let (r0a, s0a) = spec_create(a[0], max, s);
        let (r0b, s0b) = spec_create(b[0], max, s2);
        lemma_stubs_only_register(a.drop_first(), b.drop_first(), max, s0a, s0b);
    }
}

/// With the budget already reached, a stripped row decodes to nothing and
/// moves no count, like any row.
proof fn lemma_stripped_budget_exhausted(b: Seq<RawThing>, max: usize, s2: StatsModel)
    requires
        s2.elements_count >= max,
    ensures
        spec_children(b, max, s2).0 == Seq::<NodeModel>::empty(),
        spec_children(b, max, s2).1.elements_count == s2.elements_count,
{
    if b.len() == 0 {
        assert(spec_children(b, max, s2).0 =~= Seq::<NodeModel>::empty());
    }
}

} // verus!
