//! The filter engine: prune the forest to the nodes that satisfy the
//! filter, keeping every ancestor of a surviving node.
//!
//! The engine works bottom up.  Each node's children are filtered first;
//! every surviving child protects its parent by putting the parent's id
//! into the required set, and after a row is pruned the parents of its
//! survivors are protected in turn.  Every filter kind honours the
//! required set, and the numeric comparisons read the same way for the
//! reply count as for upvotes.

use vstd::prelude::*;
use crate::cli::{ElementFilter, FilterModel, FilterOpModel};
use crate::element::{Element, forest_model, lemma_forest_model_index, lemma_forest_model_snoc, NodeModel};
use crate::merge::with_children;

verus! {

/// Whether one node satisfies the filter on its own.  A comparison that
/// does not fit the filter kind (a string comparison on a numeric filter,
/// or the reverse) filters nothing out.
pub open spec fn matches_filter(n: NodeModel, f: FilterModel) -> bool {
    match f {
        FilterModel::Default => true,
        FilterModel::Upvotes(op) => match op {
            FilterOpModel::Eq(o) => n.ups == o,
            FilterOpModel::NotEq(o) => n.ups != o,
            FilterOpModel::Less(o) => n.ups < o,
            FilterOpModel::LessEq(o) => n.ups <= o,
            FilterOpModel::Grater(o) => n.ups > o,
            FilterOpModel::GraterEq(o) => n.ups >= o,
            _ => true,
        },
        FilterModel::Comments(op) => match op {
            FilterOpModel::Eq(o) => n.children.len() == o,
            FilterOpModel::NotEq(o) => n.children.len() != o,
            FilterOpModel::Less(o) => n.children.len() < o,
            FilterOpModel::LessEq(o) => n.children.len() <= o,
            FilterOpModel::Grater(o) => n.children.len() > o,
            FilterOpModel::GraterEq(o) => n.children.len() >= o,
            _ => true,
        },
        FilterModel::Author(op) => match op {
            FilterOpModel::EqString(s) => n.author == s,
            FilterOpModel::NotEqString(s) => n.author != s,
            _ => true,
        },
        FilterModel::Edited(o) => (n.edited == usize::MAX) != o,
    }
}

/// The filtered forest and the grown required set: `None` exactly for an
/// empty input.  Children are pruned first; then the row itself is pruned
/// to the nodes that satisfy the filter or stand in the required set; the
/// parents of the survivors join the required set.  With no filtering at
/// all the row is handed back after the recursion, untouched.
pub open spec fn spec_filter(els: Seq<NodeModel>, f: FilterModel, req: Seq<Seq<char>>) -> Option<
    (Seq<NodeModel>, Seq<Seq<char>>),
>
    decreases els, 1int,
{
    if els.len() == 0 {
        None
    } else {
        let (els1, req1) = filter_kids(els, f, req);
        if f is Default {
            Some((els1, req1))
        } else {
            let kept = retain_row(els1, f, req1);
            Some((kept, req1 + parents_of(kept)))
        }
    }
}

/// Prune the children of each node in the row, threading the required set
/// from one subtree to the next.
pub open spec fn filter_kids(els: Seq<NodeModel>, f: FilterModel, req: Seq<Seq<char>>) -> (
    Seq<NodeModel>,
    Seq<Seq<char>>,
)
    decreases els, 0int,
{
    if els.len() == 0 {
        (els, req)
    } else {
        let (e1, r1) = match spec_filter(els[0].children, f, req) {
            None => (els[0], req),
            Some((ch, r)) => (with_children(els[0], ch), r),
        };
        let (rest, r2) = filter_kids(els.drop_first(), f, r1);
        (seq![e1] + rest, r2)
    }
}

/// The row pruned to the nodes that satisfy the filter or are required.
pub open spec fn retain_row(els: Seq<NodeModel>, f: FilterModel, req: Seq<Seq<char>>) -> Seq<
    NodeModel,
>
    decreases els,
{
    if els.len() == 0 {
        els
    } else {
        (if matches_filter(els[0], f) || req.contains(els[0].id) {
            seq![els[0]]
        } else {
            Seq::empty()
        }) + retain_row(els.drop_first(), f, req)
    }
}

/// The parent ids of a row, in order.
pub open spec fn parents_of(els: Seq<NodeModel>) -> Seq<Seq<char>> {
    Seq::new(els.len(), |i: int| els[i].parent_id)
}

/// Whether the id stands in the required set.
fn contains_id(req: &Vec<String>, id: &String) -> (b: bool)
    ensures
        b == req.deep_view().contains(id@),
{
    let mut i: usize = 0;
    while i < req.len()
        invariant
            i <= req@.len(),
            forall|j: int| 0 <= j < i ==> req.deep_view()[j] != id@,
        decreases req@.len() - i,
    {
        let hit = req[i] == *id;
        proof {
            assert(req.deep_view()[i as int] == req@[i as int].deep_view());
        }
        if hit {
            return true;
        }
        i = i + 1;
    }
    proof {
        assert(forall|j: int| 0 <= j < req.deep_view().len() ==> req.deep_view()[j] != id@);
    }
    false
}

/// Whether the node satisfies the filter on its own.
fn matches_exec(e: &Element, f: &ElementFilter) -> (b: bool)
    ensures
        b == matches_filter(e.model(), f.model()),
{
    proof {
        lemma_forest_model_index(e.children@);
    }
    match f {
        ElementFilter::Default => true,
        ElementFilter::Upvotes(op) => match op {
            crate::cli::ElementFilterOp::Eq(o) => e.ups == *o,
            crate::cli::ElementFilterOp::NotEq(o) => e.ups != *o,
            crate::cli::ElementFilterOp::Less(o) => e.ups < *o,
            crate::cli::ElementFilterOp::LessEq(o) => e.ups <= *o,
            crate::cli::ElementFilterOp::Grater(o) => e.ups > *o,
            crate::cli::ElementFilterOp::GraterEq(o) => e.ups >= *o,
            _ => true,
        },
        ElementFilter::Comments(op) => match op {
            crate::cli::ElementFilterOp::Eq(o) => e.children.len() == *o,
            crate::cli::ElementFilterOp::NotEq(o) => e.children.len() != *o,
            crate::cli::ElementFilterOp::Less(o) => e.children.len() < *o,
            crate::cli::ElementFilterOp::LessEq(o) => e.children.len() <= *o,
            crate::cli::ElementFilterOp::Grater(o) => e.children.len() > *o,
            crate::cli::ElementFilterOp::GraterEq(o) => e.children.len() >= *o,
            _ => true,
        },
        ElementFilter::Author(op) => match op {
            crate::cli::ElementFilterOp::EqString(s) => e.author == *s,
            crate::cli::ElementFilterOp::NotEqString(s) => !(e.author == *s),
            _ => true,
        },
        ElementFilter::Edited(o) => (e.edited == usize::MAX) != *o,
    }
}

/// Prune the forest to the nodes that satisfy the filter or are ancestors
/// of one that does, as `spec_filter` says; `None` exactly for an empty
/// input.  The second result is the grown required set of protected ids.
pub fn filter_elements(
    elements: Vec<Element>,
    filter: ElementFilter,
    req_elements: Vec<String>,
) -> (r: Option<(Vec<Element>, Vec<String>)>)
    ensures
        ({
            let s = spec_filter(forest_model(elements@), filter.model(), req_elements.deep_view());
            match r {
                None => s is None,
                Some(p) => s matches Some(q) && forest_model(p.0@) == q.0 && p.1.deep_view()
                    == q.1,
            }
        }),
{
    let (kept, req) = filter_core(&filter, elements, req_elements);
    match kept {
        Some(v) => Some((v, req)),
        None => None,
    }
}

/// The working form of the filter: `None` in the first slot for an empty
/// row, and the required set handed back either way.
#[verifier::loop_isolation(false)]
fn filter_core(f: &ElementFilter, els: Vec<Element>, req: Vec<String>) -> (r: (
    Option<Vec<Element>>,
    Vec<String>,
))
    ensures
        ({
            let s = spec_filter(forest_model(els@), f.model(), req.deep_view());
            match r.0 {
                None => s is None && r.1 == req,
                Some(v) => s matches Some(q) && forest_model(v@) == q.0 && r.1.deep_view() == q.1,
            }
        }),
    decreases els,
{
    proof {
        lemma_forest_model_index(els@);
    }
    if els.len() == 0 {
        return (None, req);
    }
    let ghost ent = els;
    let ghost els0 = els@;
    let ghost fm = forest_model(els0);
    let ghost req0 = req.deep_view();
    let ghost kids_spec = filter_kids(fm, f.model(), req0);
    let mut els = els;
    let mut req = req;
    let mut done: Vec<Element> = Vec::new();
    proof {
        assert(els@.skip(0) =~= els0);
        assert(forest_model(done@) =~= Seq::<NodeModel>::empty());
    }
    while els.len() > 0
        invariant
            done@.len() + els@.len() == els0.len(),
            els@ == els0.skip(done@.len() as int),
            kids_spec.0 == forest_model(done@) + filter_kids(
                forest_model(els@),
                f.model(),
                req.deep_view(),
            ).0,
            kids_spec.1 == filter_kids(forest_model(els@), f.model(), req.deep_view()).1,
        decreases els@.len(),
    {
        let ghost elspre = els@;
        let ghost reqpre = req.deep_view();
        let ghost donepre = done@;
        let e = els.remove(0);
        proof {
            assert(elspre[0] == els0[donepre.len() as int]);
            assert(els@ =~= elspre.drop_first());
            assert(els@ =~= els0.skip(donepre.len() as int + 1));
            lemma_forest_model_index(elspre);
            assert(forest_model(elspre)[0] == e.model());
            assert(e == ent@[donepre.len() as int]);
            assert(decreases_to!(ent => ent@[donepre.len() as int]));
            assert(decreases_to!(e => e.children));
        }
        let Element {
            author,
            data,
            kind,
            url,
            ups,
            children,
            depth,
            permalink,
            id,
            parent_id,
            over_18,
            created,
            edited,
        } = e;
        let ghost kids0 = children@;
        let (kept_kids, req2) = filter_core(f, children, req);
        req = req2;
        let new_children = match kept_kids {
            Some(v) => v,
            None => Vec::new(),
        };
        proof {
            if spec_filter(forest_model(kids0), f.model(), reqpre) is None {
                assert(new_children@ =~= Seq::<Element>::empty());
                assert(forest_model(new_children@) =~= forest_model(kids0)) by {
                    assert(forest_model(kids0).len() == kids0.len());
                    assert(kids0 =~= Seq::<Element>::empty());
                }
            }
        }
        let e2 = Element {
            author,
            data,
            kind,
            url,
            ups,
            children: new_children,
            depth,
            permalink,
            id,
            parent_id,
            over_18,
            created,
            edited,
        };
        proof {
            let step = match spec_filter(forest_model(kids0), f.model(), reqpre) {
                None => (forest_model(elspre)[0], reqpre),
                Some((ch, r)) => (with_children(forest_model(elspre)[0], ch), r),
            };
            assert(e2.model() =~~= step.0);
            assert(req.deep_view() == step.1);
            let (rest, r2) = filter_kids(forest_model(els@), f.model(), req.deep_view());
            assert(forest_model(elspre).drop_first() =~= forest_model(els@)) by {
                lemma_forest_model_index(els@);
                assert forall|k: int| 0 <= k < elspre.len() - 1 implies #[trigger] forest_model(
                    elspre,
                ).drop_first()[k] == forest_model(els@)[k] by {
                    assert(forest_model(elspre)[k + 1] == elspre[k + 1].model());
                    assert(els@[k] == elspre[k + 1]);
                }
            }
            lemma_forest_model_snoc(donepre, e2);
            assert(forest_model(donepre.push(e2)) + rest =~= forest_model(donepre) + (seq![step.0]
                + rest));
        }
        done.push(e2);
    }
    proof {
        assert(els@ =~= Seq::<Element>::empty());
        assert(forest_model(els@) =~= Seq::<NodeModel>::empty());
        assert(filter_kids(forest_model(els@), f.model(), req.deep_view()) == (
            forest_model(els@),
            req.deep_view(),
        ));
        assert(kids_spec.0 =~= forest_model(done@));
        assert(kids_spec.1 == req.deep_view());
    }
    // The row itself: without a filter it is handed back as it is.
    if matches!(f, ElementFilter::Default) {
        return (Some(done), req);
    }
    // Prune the row.
    let ghost done_full = done@;
    let ghost retained_spec = retain_row(forest_model(done_full), f.model(), req.deep_view());
    let mut kept: Vec<Element> = Vec::new();
    let mut els = done;
    proof {
        lemma_forest_model_index(done_full);
        assert(els@.skip(0) =~= done_full);
        assert(forest_model(kept@) =~= Seq::<NodeModel>::empty());
    }
    while els.len() > 0
        invariant
            kept@.len() + els@.len() >= els@.len(),
            els@.len() <= done_full.len(),
            els@ == done_full.skip(done_full.len() - els@.len()),
            retained_spec == forest_model(kept@) + retain_row(
                forest_model(els@),
                f.model(),
                req.deep_view(),
            ),
        decreases els@.len(),
    {
        let ghost elspre = els@;
        let ghost keptpre = kept@;
        let e = els.remove(0);
        proof {
            assert(els@ =~= elspre.drop_first());
            assert(els@ =~= done_full.skip(done_full.len() - elspre.len() + 1));
            lemma_forest_model_index(elspre);
            assert(forest_model(elspre)[0] == e.model());
            assert(forest_model(elspre).drop_first() =~= forest_model(els@)) by {
                lemma_forest_model_index(els@);
                assert forall|k: int| 0 <= k < elspre.len() - 1 implies #[trigger] forest_model(
                    elspre,
                ).drop_first()[k] == forest_model(els@)[k] by {
                    assert(forest_model(elspre)[k + 1] == elspre[k + 1].model());
                    assert(els@[k] == elspre[k + 1]);
                }
            }
        }
        if matches_exec(&e, f) || contains_id(&req, &e.id) {
            proof {
                lemma_forest_model_snoc(keptpre, e);
                let rest = retain_row(forest_model(els@), f.model(), req.deep_view());
                assert(forest_model(keptpre.push(e)) + rest =~= forest_model(keptpre) + (seq![
                    e.model(),
                ] + rest));
            }
            kept.push(e);
        }
    }
    proof {
        assert(els@ =~= Seq::<Element>::empty());
        assert(forest_model(els@) =~= Seq::<NodeModel>::empty());
        assert(retain_row(forest_model(els@), f.model(), req.deep_view())
            =~= Seq::<NodeModel>::empty());
        assert(retained_spec =~= forest_model(kept@));
    }
    // Protect the parents of the survivors.
    let ghost req_mid = req.deep_view();
    let mut i: usize = 0;
    proof {
        lemma_forest_model_index(kept@);
        assert(req.deep_view() =~= req_mid + parents_of(forest_model(kept@)).take(0));
    }
    while i < kept.len()
        invariant
            i <= kept@.len(),
            forest_model(kept@).len() == kept@.len(),
            forall|j: int|
                0 <= j < kept@.len() ==> #[trigger] forest_model(kept@)[j] == kept@[j].model(),
            req.deep_view() == req_mid + parents_of(forest_model(kept@)).take(i as int),
        decreases kept@.len() - i,
    {
        let ghost reqpre_v = req@;
        let ghost reqpre = req.deep_view();
        let pid = kept[i].parent_id.clone();
        proof {
            assert(pid@ == kept@[i as int].parent_id@);
        }
        req.push(pid);
        i = i + 1;
        proof {
            assert(req@.len() == reqpre_v.len() + 1);
            assert(reqpre.len() == reqpre_v.len());
            assert forall|j: int| 0 <= j < reqpre_v.len() implies #[trigger] req.deep_view()[j]
                == reqpre[j] by {
                assert(req@[j] == reqpre_v[j]);
            }
            assert(req.deep_view()[reqpre_v.len() as int] == kept@[i - 1].parent_id@);
            assert(parents_of(forest_model(kept@))[i - 1] == forest_model(kept@)[i - 1].parent_id);
            assert(req.deep_view() =~~= req_mid + parents_of(forest_model(kept@)).take(i as int));
        }
    }
    proof {
        assert(parents_of(forest_model(kept@)).take(kept@.len() as int) =~= parents_of(
            forest_model(kept@),
        ));
        assert(req.deep_view() =~~= req_mid + parents_of(retained_spec));
    }
    (Some(kept), req)
}

/// Pruning subtrees keeps the row's length and every node's own fields.
pub proof fn lemma_filter_kids_shape(els: Seq<NodeModel>, f: FilterModel, req: Seq<Seq<char>>)
    ensures
        filter_kids(els, f, req).0.len() == els.len(),
        forall|i: int| 0 <= i < els.len() ==> (#[trigger] filter_kids(els, f, req).0[i]).id
            == els[i].id && filter_kids(els, f, req).0[i].parent_id == els[i].parent_id,
    decreases els.len(),
{
    if els.len() > 0 {
        let (e1, r1) = match spec_filter(els[0].children, f, req) {
            None => (els[0], req),
            Some((ch, r)) => (with_children(els[0], ch), r),
        };
        lemma_filter_kids_shape(els.drop_first(), f, r1);
        let (rest, r2) = filter_kids(els.drop_first(), f, r1);
        assert forall|i: int| 0 <= i < els.len() implies (#[trigger] filter_kids(
            els,
            f,
            req,
        ).0[i]).id == els[i].id && filter_kids(els, f, req).0[i].parent_id
            == els[i].parent_id by {
            if i > 0 {
                assert(filter_kids(els, f, req).0[i] == rest[i - 1]);
                assert(els.drop_first()[i - 1] == els[i]);
            }
        }
    }
}

/// The required set only grows: what goes in comes out.
pub proof fn lemma_filter_req_grows(els: Seq<NodeModel>, f: FilterModel, req: Seq<Seq<char>>)
    ensures
        exists|ext: Seq<Seq<char>>| filter_kids(els, f, req).1 == req + ext,
        spec_filter(els, f, req) matches Some(p) ==> exists|ext: Seq<Seq<char>>| p.1 == req + ext,
    decreases els, 2int,
{
    lemma_kids_req_grows(els, f, req);
    if els.len() > 0 {
        let (els1, req1) = filter_kids(els, f, req);
        if f is Default {
        } else {
            let ext0 = choose|ext: Seq<Seq<char>>| req1 == req + ext;
            let kept = retain_row(els1, f, req1);
            assert(req1 + parents_of(kept) =~= req + (ext0 + parents_of(kept)));
        }
    }
}

/// The row form of the growth law.
pub proof fn lemma_kids_req_grows(els: Seq<NodeModel>, f: FilterModel, req: Seq<Seq<char>>)
    ensures
        exists|ext: Seq<Seq<char>>| filter_kids(els, f, req).1 == req + ext,
    decreases els, 1int,
{
    if els.len() == 0 {
        assert(filter_kids(els, f, req).1 =~= req + Seq::<Seq<char>>::empty());
    } else {
        let (e1, r1) = match spec_filter(els[0].children, f, req) {
            None => (els[0], req),
            Some((ch, r)) => (with_children(els[0], ch), r),
        };
        assert(exists|ext: Seq<Seq<char>>| r1 == req + ext) by {
            match spec_filter(els[0].children, f, req) {
                None => {
                    assert(r1 =~= req + Seq::<Seq<char>>::empty());
                },
                Some(p) => {
                    lemma_filter_req_grows(els[0].children, f, req);
                },
            }
        }
        let ext1 = choose|ext: Seq<Seq<char>>| r1 == req + ext;
        lemma_kids_req_grows(els.drop_first(), f, r1);
        let ext2 = choose|ext: Seq<Seq<char>>| filter_kids(els.drop_first(), f, r1).1 == r1 + ext;
        assert((req + ext1) + ext2 =~= req + (ext1 + ext2));
    }
}

/// Growing a sequence keeps what it contains.
proof fn lemma_contains_grow(req: Seq<Seq<char>>, ext: Seq<Seq<char>>, id: Seq<char>)
    requires
        req.contains(id),
    ensures
        (req + ext).contains(id),
{
    let k = choose|k: int| 0 <= k < req.len() && req[k] == id;
    assert((req + ext)[k] == id);
}

/// Every node of a pruned row stands in the row it was pruned from.
proof fn lemma_retain_members(els: Seq<NodeModel>, f: FilterModel, req: Seq<Seq<char>>, k: int)
    requires
        0 <= k < retain_row(els, f, req).len(),
    ensures
        exists|m: int| 0 <= m < els.len() && retain_row(els, f, req)[k] == els[m],
    decreases els.len(),
{
    if els.len() > 0 {
        if matches_filter(els[0], f) || req.contains(els[0].id) {
            if k == 0 {
                assert(retain_row(els, f, req)[0] == els[0]);
            } else {
                lemma_retain_members(els.drop_first(), f, req, k - 1);
                let m = choose|m: int|
                    0 <= m < els.drop_first().len() && retain_row(els.drop_first(), f, req)[k - 1]
                        == els.drop_first()[m];
                assert(els.drop_first()[m] == els[m + 1]);
                assert(retain_row(els, f, req)[k] == retain_row(els.drop_first(), f, req)[k - 1]);
            }
        } else {
            lemma_retain_members(els.drop_first(), f, req, k);
            let m = choose|m: int|
                0 <= m < els.drop_first().len() && retain_row(els.drop_first(), f, req)[k]
                    == els.drop_first()[m];
            assert(els.drop_first()[m] == els[m + 1]);
            assert(retain_row(els, f, req)[k] == retain_row(els.drop_first(), f, req)[k]);
        }
    }
}

/// A node that satisfies the filter, or is required, survives the pruning
/// of its row.
proof fn lemma_retain_keeps(els: Seq<NodeModel>, f: FilterModel, req: Seq<Seq<char>>, i: int)
    requires
        0 <= i < els.len(),
        matches_filter(els[i], f) || req.contains(els[i].id),
    ensures
        exists|j: int| 0 <= j < retain_row(els, f, req).len() && retain_row(els, f, req)[j]
            == els[i],
    decreases els.len(),
{
    if i == 0 {
        assert(retain_row(els, f, req)[0] == els[0]);
    } else {
        lemma_retain_keeps(els.drop_first(), f, req, i - 1);
        let j = choose|j: int|
            0 <= j < retain_row(els.drop_first(), f, req).len() && retain_row(
                els.drop_first(),
                f,
                req,
            )[j] == els.drop_first()[i - 1];
        if matches_filter(els[0], f) || req.contains(els[0].id) {
            assert(retain_row(els, f, req)[j + 1] == retain_row(els.drop_first(), f, req)[j]);
        } else {
            assert(retain_row(els, f, req)[j] == retain_row(els.drop_first(), f, req)[j]);
        }
        assert(els.drop_first()[i - 1] == els[i]);
    }
}

/// A node whose pruned subtree still holds a child has its id in the
/// required set that the row's pruning uses: every surviving child
/// protects its parent.
proof fn lemma_kids_protects(
    els: Seq<NodeModel>,
    f: FilterModel,
    req: Seq<Seq<char>>,
    i: int,
)
    requires
        !(f is Default),
        0 <= i < els.len(),
        forall|c: int| 0 <= c < els[i].children.len() ==> (#[trigger] els[i].children[c]).parent_id
            == els[i].id,
    ensures
        ({
            let (els1, r1) = filter_kids(els, f, req);
            els1[i].children.len() > 0 ==> r1.contains(els[i].id)
        }),
    decreases els.len(),
{
    lemma_filter_kids_shape(els, f, req);
    let (e1, ra) = match spec_filter(els[0].children, f, req) {
        None => (els[0], req),
        Some((ch, r)) => (with_children(els[0], ch), r),
    };
    let (rest, r1) = filter_kids(els.drop_first(), f, ra);
    if i == 0 {
        assert(filter_kids(els, f, req).0[0] == e1);
        match spec_filter(els[0].children, f, req) {
            None => {
                assert(els[0].children.len() == 0);
            },
            Some(p) => {
                let kids = els[0].children;
                let (kids1, reqk) = filter_kids(kids, f, req);
                let kept = retain_row(kids1, f, reqk);
                assert(p.0 == kept);
                if e1.children.len() > 0 {
                    assert(kept.len() > 0);
                    lemma_retain_members(kids1, f, reqk, 0);
                    let m = choose|m: int| 0 <= m < kids1.len() && kept[0] == kids1[m];
                    lemma_filter_kids_shape(kids, f, req);
                    assert(kids1[m].parent_id == kids[m].parent_id);
                    assert(kids[m].parent_id == els[0].id);
                    assert(p.1 == reqk + parents_of(kept));
                    assert(p.1.contains(els[0].id)) by {
                        assert(parents_of(kept)[0] == kept[0].parent_id);
                        assert(p.1[reqk.len() as int] == kept[0].parent_id);
                    }
                    lemma_kids_req_grows(els.drop_first(), f, ra);
                    let ext = choose|ext: Seq<Seq<char>>|
                        filter_kids(els.drop_first(), f, ra).1 == ra + ext;
                    lemma_contains_grow(ra, ext, els[0].id);
                }
            },
        }
    } else {
        assert(els.drop_first()[i - 1] == els[i]);
        lemma_kids_protects(els.drop_first(), f, ra, i - 1);
        assert(filter_kids(els, f, req).0[i] == rest[i - 1]);
        assert(filter_kids(els, f, req).1 == r1);
    }
}

/// Filtering preserves ancestors: when a node's children still hold a
/// survivor after pruning, the node itself survives the pruning of its
/// own row, because every surviving child protects its parent.  The
/// node's children must point back at it, as they do in a decoded forest.
pub proof fn lemma_filter_keeps_ancestors(
    els: Seq<NodeModel>,
    f: FilterModel,
    req: Seq<Seq<char>>,
    i: int,
)
    requires
        !(f is Default),
        0 <= i < els.len(),
        forall|c: int| 0 <= c < els[i].children.len() ==> (#[trigger] els[i].children[c]).parent_id
            == els[i].id,
    ensures
        ({
            let (els1, r1) = filter_kids(els, f, req);
            spec_filter(els, f, req) matches Some(p) ==> (els1[i].children.len() > 0 ==> exists|
                j: int,
            | 0 <= j < p.0.len() && p.0[j] == els1[i])
        }),
{
    let (els1, r1) = filter_kids(els, f, req);
    lemma_filter_kids_shape(els, f, req);
    lemma_kids_protects(els, f, req, i);
    if els1[i].children.len() > 0 {
        assert(r1.contains(els1[i].id)) by {
            assert(els1[i].id == els[i].id);
        }
        lemma_retain_keeps(els1, f, r1, i);
        let kept = retain_row(els1, f, r1);
        let j = choose|j: int| 0 <= j < kept.len() && kept[j] == els1[i];
        assert(els.len() > 0);
        assert(spec_filter(els, f, req) == Some((kept, r1 + parents_of(kept))));
        let p0 = spec_filter(els, f, req)->0;
        assert(exists|jj: int| 0 <= jj < p0.0.len() && p0.0[jj] == els1[i]) by {
            assert(0 <= j < p0.0.len() && p0.0[j] == els1[i]);
        }
    }
}

} // verus!
