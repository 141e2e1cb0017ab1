//! The anchor-splice merge: a fetched continuation batch is attached to
//! the node of the shared forest that matches the batch's first node.

use vstd::prelude::*;
use crate::decode::RunStats;
use crate::element::{Element, forest_model, lemma_forest_model_index, lemma_forest_model_snoc, NodeModel};

verus! {

/// The first position at this level whose node carries the given id.
pub open spec fn find_anchor(y: Seq<NodeModel>, id: Seq<char>) -> Option<int>
    decreases y.len(),
{
    if y.len() == 0 {
        None
    } else if y[0].id == id {
        Some(0)
    } else {
        match find_anchor(y.drop_first(), id) {
            Some(i) => Some(i + 1),
            None => None,
        }
    }
}

/// The node with a batch tail appended to its children.
pub open spec fn extend_children(n: NodeModel, tail: Seq<NodeModel>) -> NodeModel {
    NodeModel {
        author: n.author,
        data: n.data,
        kind: n.kind,
        url: n.url,
        ups: n.ups,
        children: n.children + tail,
        depth: n.depth,
        permalink: n.permalink,
        id: n.id,
        parent_id: n.parent_id,
        over_18: n.over_18,
        created: n.created,
        edited: n.edited,
    }
}

/// The node with its children replaced.
pub open spec fn with_children(n: NodeModel, children: Seq<NodeModel>) -> NodeModel {
    NodeModel {
        author: n.author,
        data: n.data,
        kind: n.kind,
        url: n.url,
        ups: n.ups,
        children,
        depth: n.depth,
        permalink: n.permalink,
        id: n.id,
        parent_id: n.parent_id,
        over_18: n.over_18,
        created: n.created,
        edited: n.edited,
    }
}

/// Splice the batch `x` into the forest `y`: the first node whose id
/// matches the batch's first node — looked for level by level, each row
/// of siblings before any of their subtrees — takes the batch's tail as
/// additional children, and the matched anchor is dropped from the batch.
/// The result is the new forest, what is left of the batch (nothing after
/// a match, everything without one), and how many batch nodes the splice
/// dropped (one for the anchor of a successful match).
pub open spec fn splice_forest(y: Seq<NodeModel>, x: Seq<NodeModel>) -> (
    Seq<NodeModel>,
    Seq<NodeModel>,
    nat,
)
    decreases y, 1int,
{
    if x.len() > 0 && find_anchor(y, x[0].id) is Some {
        let i = find_anchor(y, x[0].id)->0;
        (y.update(i, extend_children(y[i], x.drop_first())), Seq::empty(), 1)
    } else {
        splice_children(y, x)
    }
}

/// Splice the batch into the subtrees of each node in turn, threading
/// what is left of the batch from one subtree to the next.
pub open spec fn splice_children(y: Seq<NodeModel>, x: Seq<NodeModel>) -> (
    Seq<NodeModel>,
    Seq<NodeModel>,
    nat,
)
    decreases y, 0int,
{
    if y.len() == 0 {
        (y, x, 0)
    } else {
        let (c0, x0, d0) = splice_forest(y[0].children, x);
        let (rest, x1, d1) = splice_children(y.drop_first(), x0);
        (seq![with_children(y[0], c0)] + rest, x1, d0 + d1)
    }
}

/// A splice drops at most the one anchor; a batch that was empty, or that
/// comes back non-empty, left the forest exactly as it was.
pub proof fn lemma_splice_forest_frame(y: Seq<NodeModel>, x: Seq<NodeModel>)
    ensures
        splice_forest(y, x).2 <= 1,
        x.len() == 0 || splice_forest(y, x).1.len() > 0 ==> splice_forest(y, x).0 == y
            && splice_forest(y, x).1 == x && splice_forest(y, x).2 == 0,
        splice_forest(y, x).2 == 0 ==> splice_forest(y, x).1 == x,
    decreases y, 1int,
{
    if x.len() > 0 && find_anchor(y, x[0].id) is Some {
    } else {
        lemma_splice_children_frame(y, x);
    }
}

/// The row-by-row form of the frame property.
pub proof fn lemma_splice_children_frame(y: Seq<NodeModel>, x: Seq<NodeModel>)
    ensures
        splice_children(y, x).2 <= 1,
        x.len() == 0 || splice_children(y, x).1.len() > 0 ==> splice_children(y, x).0 == y
            && splice_children(y, x).1 == x && splice_children(y, x).2 == 0,
        splice_children(y, x).2 == 0 ==> splice_children(y, x).1 == x,
    decreases y, 0int,
{
    if y.len() == 0 {
    } else {
        lemma_splice_forest_frame(y[0].children, x);
        let (c0, x0, d0) = splice_forest(y[0].children, x);
        lemma_splice_children_frame(y.drop_first(), x0);
        let (rest, x1, d1) = splice_children(y.drop_first(), x0);
        if d0 > 0 {
            assert(x0.len() == 0);
            assert(d1 == 0);
        }
        if x.len() == 0 || x1.len() > 0 {
            assert(c0 == y[0].children && x0 == x && d0 == 0);
            assert(rest == y.drop_first() && x1 == x0 && d1 == 0);
            assert(with_children(y[0], c0) =~= y[0]);
            assert(splice_children(y, x).0 =~= y);
        }
    }
}

/// The first position at this level whose node is the same node (by id)
/// as the probe.
fn find_anchor_exec(y: &Vec<Element>, probe: &Element) -> (r: Option<usize>)
    ensures
        match r {
            Some(i) => find_anchor(forest_model(y@), probe.model().id) == Some(i as int),
            None => find_anchor(forest_model(y@), probe.model().id) is None,
        },
{
    proof {
        lemma_forest_model_index(y@);
    }
    let n = y.len();
    let mut i: usize = 0;
    while i < n
        invariant
            i <= n,
            n == y@.len(),
            forest_model(y@).len() == n,
            forall|j: int| 0 <= j < n ==> #[trigger] forest_model(y@)[j] == y@[j].model(),
            forall|j: int| 0 <= j < i ==> #[trigger] forest_model(y@)[j].id != probe.model().id,
        decreases n - i,
    {
        if &y[i] == probe {
            proof {
                lemma_find_anchor_skip(forest_model(y@), probe.model().id, i as int);
            }
            return Some(i);
        }
        i = i + 1;
    }
    proof {
        lemma_find_anchor_skip(forest_model(y@), probe.model().id, n as int);
        assert(forest_model(y@).skip(n as int) =~= Seq::<NodeModel>::empty());
    }
    None
}

/// When no node before position `i` matches, the first match of the whole
/// level is the first match from `i` on.
proof fn lemma_find_anchor_skip(y: Seq<NodeModel>, id: Seq<char>, i: int)
    requires
        0 <= i <= y.len(),
        forall|j: int| 0 <= j < i ==> #[trigger] y[j].id != id,
    ensures
        find_anchor(y, id) == (match find_anchor(y.skip(i), id) {
            Some(k) => Some(k + i),
            None => None::<int>,
        }),
    decreases i,
{
    if i == 0 {
        assert(y.skip(0) =~= y);
    } else {
        assert(y[0].id != id);
        assert(y.drop_first().skip(i - 1) =~= y.skip(i));
        lemma_find_anchor_skip(y.drop_first(), id, i - 1);
    }
}

/// A found anchor is a real position of the level, and it matches.
pub proof fn lemma_find_anchor_bounds(y: Seq<NodeModel>, id: Seq<char>)
    ensures
        find_anchor(y, id) matches Some(i) ==> 0 <= i < y.len() && y[i].id == id,
    decreases y.len(),
{
    if y.len() > 0 && y[0].id != id {
        lemma_find_anchor_bounds(y.drop_first(), id);
    }
}

/// Splice the batch `x` into the forest `y`, as `splice_forest` says:
/// search the forest level by level for the first node equal to the
/// batch's first node; on a match, drop that anchor from the batch, take
/// one off the node count (the anchor was already counted when the forest
/// was first decoded), and hand the whole remaining tail to the matched
/// node as additional children.  Without a match everything is unchanged.
pub fn append_element(x: &mut Vec<Element>, y: &mut Vec<Element>, stats: &mut RunStats)
    requires
        old(x)@.len() > 0 ==> old(stats).elements_count >= 1,
    ensures
        ({
            let (ny, nx, dec) = splice_forest(forest_model(old(y)@), forest_model(old(x)@));
            &&& forest_model(final(y)@) == ny
            &&& forest_model(final(x)@) == nx
            &&& final(stats).elements_count == old(stats).elements_count - dec
            &&& final(stats).num_comments == old(stats).num_comments
            &&& final(stats).more_elements_count == old(stats).more_elements_count
            &&& final(stats).more_elements == old(stats).more_elements
        }),
{
    let mut xo: Vec<Element> = Vec::new();
    let mut yo: Vec<Element> = Vec::new();
    core::mem::swap(x, &mut xo);
    core::mem::swap(y, &mut yo);
    let (ny, nx) = splice_vec(xo, yo, stats);
    let mut ny = ny;
    let mut nx = nx;
    core::mem::swap(y, &mut ny);
    core::mem::swap(x, &mut nx);
}

/// The owned form of the splice: the new forest and what is left of the
/// batch.
#[verifier::loop_isolation(false)]
fn splice_vec(x: Vec<Element>, y: Vec<Element>, stats: &mut RunStats) -> (r: (
    Vec<Element>,
    Vec<Element>,
))
    requires
        x@.len() > 0 ==> old(stats).elements_count >= 1,
    ensures
        ({
            let (ny, nx, dec) = splice_forest(forest_model(y@), forest_model(x@));
            &&& forest_model(r.0@) == ny
            &&& forest_model(r.1@) == nx
            &&& final(stats).elements_count == old(stats).elements_count - dec
            &&& final(stats).num_comments == old(stats).num_comments
            &&& final(stats).more_elements_count == old(stats).more_elements_count
            &&& final(stats).more_elements == old(stats).more_elements
        }),
    decreases y,
{
    let ghost yent = y;
    let ghost y0 = y@;
    let ghost x0 = x@;
    let ghost fy = forest_model(y0);
    let ghost fx = forest_model(x0);
    let mut x = x;
    let mut y = y;
    proof {
        lemma_forest_model_index(y0);
        lemma_forest_model_index(x0);
    }
    if x.len() > 0 {
        let found = find_anchor_exec(&y, &x[0]);
        match found {
            Some(i) => {
                proof {
                    lemma_find_anchor_bounds(fy, fx[0].id);
                }
                let anchor = x.remove(0);
                stats.elements_count = stats.elements_count - 1;
                let mut out: Vec<Element> = Vec::new();
                let mut j: usize = 0;
                while j < i
                    invariant
                        j <= i < y0.len(),
                        y@ =~= y0.skip(j as int),
                        out@ =~= y0.take(j as int),
                    decreases i - j,
                {
                    let e = y.remove(0);
                    proof {
                        assert(y0.skip(j as int)[0] == y0[j as int]);
                        assert(y0.skip(j as int).drop_first() =~= y0.skip(j + 1));
                        assert(y0.take(j as int).push(y0[j as int]) =~= y0.take(j + 1));
                    }
                    out.push(e);
                    j = j + 1;
                }
                let mut target = y.remove(0);
                proof {
                    assert(y0.skip(i as int)[0] == y0[i as int]);
                    assert(y0.skip(i as int).drop_first() =~= y0.skip(i + 1));
                    assert(x@ =~= x0.drop_first());
                }
                let ghost oldkids = target.children@;
                target.children.append(&mut x);
                let ghost newkids = target.children@;
                proof {
                    assert(oldkids == y0[i as int].children@);
                    assert(newkids == y0[i as int].children@ + x0.drop_first());
                }
                out.push(target);
                let mut restv = y;
                out.append(&mut restv);
                proof {
                    lemma_forest_model_index(out@);
                    lemma_forest_model_index(newkids);
                    lemma_forest_model_index(y0[i as int].children@);
                    lemma_forest_model_index(x0.drop_first());
                    assert(forest_model(x0.drop_first()) =~= fx.drop_first()) by {
                        assert forall|k: int| 0 <= k < x0.len() - 1 implies #[trigger] forest_model(
                            x0.drop_first(),
                        )[k] == fx.drop_first()[k] by {
                            assert(x0.drop_first()[k] == x0[k + 1]);
                            assert(fx[k + 1] == x0[k + 1].model());
                        }
                    }
                    assert(forest_model(newkids) =~= forest_model(y0[i as int].children@)
                        + forest_model(x0.drop_first())) by {
                        assert forall|k: int| 0 <= k < newkids.len() implies #[trigger]
                        forest_model(newkids)[k] == (forest_model(y0[i as int].children@)
                            + forest_model(x0.drop_first()))[k] by {
                            if k < y0[i as int].children@.len() {
                                assert(newkids[k] == y0[i as int].children@[k]);
                            } else {
                                let base = y0[i as int].children@.len();
                                assert(newkids[k] == x0.drop_first()[k - base]);
                            }
                        }
                    }
                    let ny = fy.update(i as int, extend_children(fy[i as int], fx.drop_first()));
                    assert(out@.len() == y0.len());
                    assert(out@[i as int].model().children == forest_model(newkids));
                    assert(forest_model(out@) =~~= ny) by {
                        assert forall|k: int| 0 <= k < y0.len() implies #[trigger] forest_model(
                            out@,
                        )[k] == ny[k] by {
                            if k < i {
                                assert(out@[k] == y0[k]);
                            } else if k == i {
                                assert(forest_model(out@)[k] == out@[k].model());
                                assert(ny[k] == extend_children(fy[k], fx.drop_first()));
                                assert(fy[k] == y0[k].model());
                                assert(out@[k].model() =~~= extend_children(
                                    fy[k],
                                    fx.drop_first(),
                                ));
                            } else {
                                assert(out@[k] == y0[k]);
                            }
                        }
                    }
                    assert(forest_model(x@) =~= Seq::<NodeModel>::empty());
                }
                return (out, x);
            },
            None => {},
        }
    }
    // No anchor at this level: carry the batch through each subtree, in
    // sibling order.
    let ghost spec_result = splice_children(fy, fx);
    proof {
        if x0.len() > 0 {
            assert(fx.len() > 0);
            assert(splice_forest(fy, fx) == spec_result);
        } else {
            assert(fx.len() == 0);
            assert(splice_forest(fy, fx) == spec_result);
        }
    }
    let mut out: Vec<Element> = Vec::new();
    proof {
        assert(y@.skip(0) =~= y0);
        assert(forest_model(out@) =~= Seq::<NodeModel>::empty());
    }
    while y.len() > 0
        invariant
            yent@ == y0,
            out@.len() + y@.len() == y0.len(),
            y@ == y0.skip(out@.len() as int),
            x@.len() > 0 ==> stats.elements_count == old(stats).elements_count && forest_model(x@)
                == fx && fx.len() > 0,
            x@.len() > 0 ==> stats.elements_count >= 1,
            spec_result.0 == forest_model(out@) + splice_children(
                forest_model(y@),
                forest_model(x@),
            ).0,
            spec_result.1 == splice_children(forest_model(y@), forest_model(x@)).1,
            stats.elements_count + spec_result.2 == old(stats).elements_count + splice_children(
                forest_model(y@),
                forest_model(x@),
            ).2,
            stats.elements_count <= old(stats).elements_count,
            stats.num_comments == old(stats).num_comments,
            stats.more_elements_count == old(stats).more_elements_count,
            stats.more_elements == old(stats).more_elements,
        decreases y@.len(),
    {
        let ghost ypre = y@;
        let ghost xpre = x@;
        let ghost outpre = out@;
        let e = y.remove(0);
        proof {
            assert(ypre[0] == y0[outpre.len() as int]);
            assert(y@ =~= ypre.drop_first());
            assert(y@ =~= y0.skip(outpre.len() as int + 1));
            lemma_forest_model_index(ypre);
            assert(forest_model(ypre)[0] == e.model());
            assert(yent@ == y0);
            assert(outpre.len() < y0.len());
            assert(e == yent@[outpre.len() as int]);
            assert(decreases_to!(yent => yent@[outpre.len() as int]));
            assert(decreases_to!(yent => e));
            assert(decreases_to!(e => e.children));
        }
        let Element {
            author,
            data,
            kind,
            url,
            ups,
            children,
            depth,
            permalink,
            id,
            parent_id,
            over_18,
            created,
            edited,
        } = e;
        let ghost kids0 = children@;
        let (c2, x2) = splice_vec(x, children, stats);
        x = x2;
        let e2 = Element {
            author,
            data,
            kind,
            url,
            ups,
            children: c2,
            depth,
            permalink,
            id,
            parent_id,
            over_18,
            created,
            edited,
        };
        proof {
            let (sc0, sx0, sd0) = splice_forest(forest_model(kids0), forest_model(xpre));
            assert(e2.model().children == forest_model(c2@));
            assert(e2.model() =~~= with_children(forest_model(ypre)[0], sc0));
            let (srest, sx1, sd1) = splice_children(forest_model(y@), sx0);
            assert(forest_model(ypre).drop_first() =~= forest_model(y@)) by {
                lemma_forest_model_index(y@);
                assert forall|k: int| 0 <= k < ypre.len() - 1 implies #[trigger] forest_model(
                    ypre,
                ).drop_first()[k] == forest_model(y@)[k] by {
                    assert(forest_model(ypre)[k + 1] == ypre[k + 1].model());
                    assert(y@[k] == ypre[k + 1]);
                }
            }
            assert(splice_children(forest_model(ypre), forest_model(xpre)) == (
                seq![with_children(forest_model(ypre)[0], sc0)] + srest,
                sx1,
                (sd0 + sd1) as nat,
            ));
            assert(forest_model(x@) == sx0);
            lemma_forest_model_snoc(outpre, e2);
            assert(forest_model(outpre.push(e2)) + srest =~= forest_model(outpre) + (seq![
                with_children(forest_model(ypre)[0], sc0),
            ] + srest));
            if x@.len() > 0 {
                lemma_forest_model_index(x@);
                assert(sx0.len() > 0);
                lemma_splice_forest_frame(forest_model(kids0), forest_model(xpre));
                assert(sd0 == 0 && sx0 == forest_model(xpre));
                assert(xpre.len() > 0);
                assert(forest_model(x@) == fx);
            }
        }
        out.push(e2);
    }
    proof {
        assert(y@ =~= Seq::<Element>::empty());
        assert(forest_model(y@) =~= Seq::<NodeModel>::empty());
        assert(splice_children(forest_model(y@), forest_model(x@)) == (
            Seq::<NodeModel>::empty(),
            forest_model(x@),
            0nat,
        ));
        assert(spec_result.0 =~= forest_model(out@));
    }
    (out, x)
}

/// The ids of a row, in order.
pub open spec fn ids_of(y: Seq<NodeModel>) -> Seq<Seq<char>> {
    Seq::new(y.len(), |i: int| y[i].id)
}

/// Where the anchor lands depends on the row's ids alone.
proof fn lemma_find_anchor_ids(y: Seq<NodeModel>, y2: Seq<NodeModel>, id: Seq<char>)
    requires
        ids_of(y) == ids_of(y2),
    ensures
        find_anchor(y, id) == find_anchor(y2, id),
    decreases y.len(),
{
    assert(y.len() == y2.len()) by {
        assert(ids_of(y).len() == y.len());
        assert(ids_of(y2).len() == y2.len());
    }
    if y.len() > 0 {
        assert(y[0].id == y2[0].id) by {
            assert(ids_of(y)[0] == y[0].id);
            assert(ids_of(y2)[0] == y2[0].id);
        }
        if y[0].id != id {
            assert(ids_of(y.drop_first()) =~= ids_of(y2.drop_first())) by {
                assert forall|k: int| 0 <= k < y.len() - 1 implies #[trigger] ids_of(
                    y.drop_first(),
                )[k] == ids_of(y2.drop_first())[k] by {
                    assert(ids_of(y)[k + 1] == y[k + 1].id);
                    assert(ids_of(y2)[k + 1] == y2[k + 1].id);
                }
            }
            lemma_find_anchor_ids(y.drop_first(), y2.drop_first(), id);
        }
    }
}

/// Extending a node's children does not change the row's ids.
proof fn lemma_update_keeps_ids(y: Seq<NodeModel>, i: int, tail: Seq<NodeModel>)
    requires
        0 <= i < y.len(),
    ensures
        ids_of(y.update(i, extend_children(y[i], tail))) == ids_of(y),
{
    assert(ids_of(y.update(i, extend_children(y[i], tail))) =~= ids_of(y));
}

/// Order-independence of the anchor-splice for two batches whose anchors
/// stand in the same row of siblings: whichever resolves first, the final
/// forest is the same.  (The anchors are distinct nodes, since a batch
/// whose first node matched would splice there; extending one anchor's
/// children neither moves the other anchor nor changes what is appended
/// to it.)
pub proof fn lemma_splice_commutes(y: Seq<NodeModel>, a: Seq<NodeModel>, b: Seq<NodeModel>)
    requires
        a.len() > 0,
        b.len() > 0,
        a[0].id != b[0].id,
        find_anchor(y, a[0].id) is Some,
        find_anchor(y, b[0].id) is Some,
    ensures
        splice_forest(splice_forest(y, a).0, b).0 == splice_forest(splice_forest(y, b).0, a).0,
{
    let i = find_anchor(y, a[0].id)->0;
    let j = find_anchor(y, b[0].id)->0;
    lemma_find_anchor_bounds(y, a[0].id);
    lemma_find_anchor_bounds(y, b[0].id);
    assert(i != j);
    let ya = y.update(i, extend_children(y[i], a.drop_first()));
    let yb = y.update(j, extend_children(y[j], b.drop_first()));
    lemma_update_keeps_ids(y, i, a.drop_first());
    lemma_update_keeps_ids(y, j, b.drop_first());
    lemma_find_anchor_ids(ya, y, b[0].id);
    lemma_find_anchor_ids(yb, y, a[0].id);
    assert(splice_forest(y, a).0 == ya);
    assert(splice_forest(y, b).0 == yb);
    assert(find_anchor(ya, b[0].id) == Some(j));
    assert(find_anchor(yb, a[0].id) == Some(i));
    assert(ya[j] == y[j]);
    assert(yb[i] == y[i]);
    assert(splice_forest(ya, b).0 == ya.update(j, extend_children(y[j], b.drop_first())));
    assert(splice_forest(yb, a).0 == yb.update(i, extend_children(y[i], a.drop_first())));
    assert(ya.update(j, extend_children(y[j], b.drop_first())) =~= yb.update(
        i,
        extend_children(y[i], a.drop_first()),
    ));
}

/// Whether any node of the forest, at any depth, carries the id.
pub open spec fn forest_has_id(y: Seq<NodeModel>, id: Seq<char>) -> bool
    decreases y,
{
    if y.len() == 0 {
        false
    } else {
        y[0].id == id || forest_has_id(y[0].children, id) || forest_has_id(y.drop_first(), id)
    }
}

/// A row holding no node with the id has no anchor for it.
proof fn lemma_no_id_no_anchor(y: Seq<NodeModel>, id: Seq<char>)
    requires
        !forest_has_id(y, id),
    ensures
        find_anchor(y, id) is None,
    decreases y,
{
    if y.len() > 0 {
        lemma_no_id_no_anchor(y.drop_first(), id);
    }
}

/// A batch whose first id occurs nowhere in the forest passes through it
/// untouched and unspent.
proof fn lemma_free_splice(y: Seq<NodeModel>, x: Seq<NodeModel>)
    requires
        x.len() == 0 || !forest_has_id(y, x[0].id),
    ensures
        splice_forest(y, x) == (y, x, 0nat),
        splice_children(y, x) == (y, x, 0nat),
    decreases y,
{
    if x.len() > 0 {
        lemma_no_id_no_anchor(y, x[0].id);
    }
    if y.len() == 0 {
    } else {
        lemma_free_splice(y[0].children, x);
        lemma_free_splice(y.drop_first(), x);
        assert(with_children(y[0], y[0].children) =~= y[0]);
        assert(splice_children(y, x).0 =~= y);
    }
}

/// Padding a row with trees free of the id does not move its anchor.
proof fn lemma_find_concat(c: Seq<NodeModel>, t: Seq<NodeModel>, id: Seq<char>)
    requires
        !forest_has_id(t, id),
    ensures
        find_anchor(c + t, id) == find_anchor(c, id),
    decreases c,
{
    if c.len() == 0 {
        assert(c + t =~= t);
        lemma_no_id_no_anchor(t, id);
    } else {
        assert((c + t)[0] == c[0]);
        assert((c + t).drop_first() =~= c.drop_first() + t);
        lemma_find_concat(c.drop_first(), t, id);
    }
}

/// A splice into a row padded at the end with trees free of the batch's
/// first id splices into the unpadded row, the padding untouched.
proof fn lemma_splice_concat(c: Seq<NodeModel>, t: Seq<NodeModel>, x: Seq<NodeModel>)
    requires
        x.len() == 0 || !forest_has_id(t, x[0].id),
    ensures
        splice_forest(c + t, x).0 == splice_forest(c, x).0 + t,
        splice_forest(c + t, x).1 == splice_forest(c, x).1,
        splice_forest(c + t, x).2 == splice_forest(c, x).2,
    decreases c, 1int,
{
    if x.len() == 0 {
        lemma_free_splice(c + t, x);
        lemma_free_splice(c, x);
    } else {
        lemma_find_concat(c, t, x[0].id);
        match find_anchor(c, x[0].id) {
            Some(i) => {
                lemma_find_anchor_bounds(c, x[0].id);
                assert((c + t)[i] == c[i]);
                assert((c + t).update(i, extend_children(c[i], x.drop_first())) =~= c.update(
                    i,
                    extend_children(c[i], x.drop_first()),
                ) + t);
            },
            None => {
                lemma_children_concat(c, t, x);
            },
        }
    }
}

/// The row form of the padding law.
proof fn lemma_children_concat(c: Seq<NodeModel>, t: Seq<NodeModel>, x: Seq<NodeModel>)
    requires
        x.len() == 0 || !forest_has_id(t, x[0].id),
    ensures
        splice_children(c + t, x).0 == splice_children(c, x).0 + t,
        splice_children(c + t, x).1 == splice_children(c, x).1,
        splice_children(c + t, x).2 == splice_children(c, x).2,
    decreases c, 0int,
{
    if c.len() == 0 {
        assert(c + t =~= t);
        let (c0, x0, d0) = splice_children(c, x);
        assert(c0 =~= c);
        lemma_free_splice(t, x);
        assert(splice_children(c + t, x).0 =~= splice_children(c, x).0 + t);
    } else {
        assert((c + t)[0] == c[0]);
        assert((c + t).drop_first() =~= c.drop_first() + t);
        let (c0, x0, d0) = splice_forest(c[0].children, x);
        lemma_splice_forest_frame(c[0].children, x);
        if x0.len() > 0 {
            assert(x0 == x);
        }
        lemma_children_concat(c.drop_first(), t, x0);
        assert(splice_children(c + t, x).0 =~= splice_children(c, x).0 + t);
    }
}

/// Pruning by splice keeps every node of a row in place: same length,
/// same ids at every position.
proof fn lemma_splice_children_shape(y: Seq<NodeModel>, x: Seq<NodeModel>)
    ensures
        splice_children(y, x).0.len() == y.len(),
        forall|k: int| 0 <= k < y.len() ==> (#[trigger] splice_children(y, x).0[k]).id == y[k].id,
    decreases y,
{
    if y.len() > 0 {
        let (c0, x0, d0) = splice_forest(y[0].children, x);
        lemma_splice_children_shape(y.drop_first(), x0);
        assert forall|k: int| 0 <= k < y.len() implies (#[trigger] splice_children(y, x).0[k]).id
            == y[k].id by {
            if k > 0 {
                assert(splice_children(y, x).0[k] == splice_children(y.drop_first(), x0).0[k - 1]);
                assert(y.drop_first()[k - 1] == y[k]);
            }
        }
    }
}

/// The ids of a spliced row are the row's ids.
proof fn lemma_splice_children_ids(y: Seq<NodeModel>, x: Seq<NodeModel>)
    ensures
        ids_of(splice_children(y, x).0) == ids_of(y),
{
    lemma_splice_children_shape(y, x);
    assert(ids_of(splice_children(y, x).0) =~= ids_of(y));
}

/// Splicing one batch at a node of this row and carrying another batch
/// through the subtrees are independent, when the appended tail holds no
/// node with the other batch's first id.
proof fn lemma_level_descend_commute(y: Seq<NodeModel>, i: int, ta: Seq<NodeModel>, x: Seq<NodeModel>)
    requires
        0 <= i < y.len(),
        x.len() == 0 || !forest_has_id(ta, x[0].id),
    ensures
        ({
            let ya = y.update(i, extend_children(y[i], ta));
            let (z, x1, d) = splice_children(y, x);
            &&& splice_children(ya, x).0 == z.update(i, extend_children(z[i], ta))
            &&& splice_children(ya, x).1 == x1
            &&& splice_children(ya, x).2 == d
        }),
    decreases y,
{
    let ya = y.update(i, extend_children(y[i], ta));
    let (z, x1, d) = splice_children(y, x);
    lemma_splice_children_shape(y, x);
    if i == 0 {
        assert(ya[0] == extend_children(y[0], ta));
        assert(ya[0].children == y[0].children + ta);
        lemma_splice_concat(y[0].children, ta, x);
        let (c0, x0, d0) = splice_forest(y[0].children, x);
        assert(splice_forest(ya[0].children, x) == (c0 + ta, x0, d0));
        assert(ya.drop_first() =~= y.drop_first());
        assert(with_children(ya[0], c0 + ta) =~~= extend_children(with_children(y[0], c0), ta));
        assert(splice_children(ya, x).0 =~= z.update(0, extend_children(z[0], ta))) by {
            assert(z[0] == with_children(y[0], c0));
            assert(splice_children(ya, x).0 == seq![with_children(ya[0], c0 + ta)]
                + splice_children(ya.drop_first(), x0).0);
            assert(splice_children(y.drop_first(), x0) == splice_children(ya.drop_first(), x0));
        }
    } else {
        assert(ya[0] == y[0]);
        assert(ya[0].children == y[0].children);
        let (c0, x0, d0) = splice_forest(y[0].children, x);
        lemma_splice_forest_frame(y[0].children, x);
        assert(x0.len() == 0 || x0 == x);
        assert(ya.drop_first() =~= y.drop_first().update(i - 1, extend_children(
            y.drop_first()[i - 1],
            ta,
        ))) by {
            assert(y.drop_first()[i - 1] == y[i]);
        }
        lemma_level_descend_commute(y.drop_first(), i - 1, ta, x0);
        let (zr, xr, dr) = splice_children(y.drop_first(), x0);
        assert(splice_children(ya, x).0 =~= z.update(i, extend_children(z[i], ta))) by {
            assert(z == seq![with_children(y[0], c0)] + zr);
            assert(z[i] == zr[i - 1]);
            assert(splice_children(ya, x).0 == seq![with_children(y[0], c0)] + zr.update(
                i - 1,
                extend_children(zr[i - 1], ta),
            ));
        }
    }
}

/// Two batches are independent when each is empty or names an anchor the
/// other's tail does not carry anywhere.
pub open spec fn independent_batches(a: Seq<NodeModel>, b: Seq<NodeModel>) -> bool {
    a.len() == 0 || b.len() == 0 || (a[0].id != b[0].id && !forest_has_id(a.drop_first(), b[0].id)
        && !forest_has_id(b.drop_first(), a[0].id))
}

/// Order-independence of the anchor-splice: two independent batches land
/// in the same forest whichever resolves first, wherever their anchors
/// sit; and neither changes what the other finds or leaves over.
pub proof fn lemma_splice_order_independent(y: Seq<NodeModel>, a: Seq<NodeModel>, b: Seq<NodeModel>)
    requires
        independent_batches(a, b),
    ensures
        splice_forest(splice_forest(y, a).0, b).0 == splice_forest(splice_forest(y, b).0, a).0,
        splice_forest(splice_forest(y, a).0, b).1 == splice_forest(y, b).1,
        splice_forest(splice_forest(y, b).0, a).1 == splice_forest(y, a).1,
    decreases y, 1int,
{
    if a.len() == 0 {
        lemma_free_splice(y, a);
        lemma_splice_forest_frame(splice_forest(y, b).0, a);
        lemma_free_splice(splice_forest(y, b).0, a);
    } else if b.len() == 0 {
        lemma_free_splice(y, b);
        lemma_free_splice(splice_forest(y, a).0, b);
    } else {
        let ida = a[0].id;
        let idb = b[0].id;
        let fa = find_anchor(y, ida);
        let fb = find_anchor(y, idb);
        lemma_find_anchor_bounds(y, ida);
        lemma_find_anchor_bounds(y, idb);
        if fa is Some && fb is Some {
            let i = fa->0;
            let j = fb->0;
            assert(i != j);
            let ya = y.update(i, extend_children(y[i], a.drop_first()));
            let yb = y.update(j, extend_children(y[j], b.drop_first()));
            lemma_update_keeps_ids(y, i, a.drop_first());
            lemma_update_keeps_ids(y, j, b.drop_first());
            lemma_find_anchor_ids(ya, y, idb);
            lemma_find_anchor_ids(yb, y, ida);
            assert(ya[j] == y[j]);
            assert(yb[i] == y[i]);
            assert(ya.update(j, extend_children(y[j], b.drop_first())) =~= yb.update(
                i,
                extend_children(y[i], a.drop_first()),
            ));
        } else if fa is Some && fb is None {
            let i = fa->0;
            let ya = y.update(i, extend_children(y[i], a.drop_first()));
            lemma_update_keeps_ids(y, i, a.drop_first());
            lemma_find_anchor_ids(ya, y, idb);
            // The first batch spliced at its row; the second descends the
            // same subtrees, the appended tail holding nothing for it.
            lemma_level_descend_commute(y, i, a.drop_first(), b);
            let (z, b1, db) = splice_children(y, b);
            lemma_splice_children_ids(y, b);
            lemma_find_anchor_ids(z, y, ida);
            lemma_splice_children_shape(y, b);
            assert(splice_forest(splice_forest(y, a).0, b).0 == z.update(
                i,
                extend_children(z[i], a.drop_first()),
            ));
            assert(splice_forest(splice_forest(y, b).0, a).0 == z.update(
                i,
                extend_children(z[i], a.drop_first()),
            ));
        } else if fa is None && fb is Some {
            let j = fb->0;
            let yb = y.update(j, extend_children(y[j], b.drop_first()));
            lemma_update_keeps_ids(y, j, b.drop_first());
            lemma_find_anchor_ids(yb, y, ida);
            lemma_level_descend_commute(y, j, b.drop_first(), a);
            let (z, a1, da) = splice_children(y, a);
            lemma_splice_children_ids(y, a);
            lemma_find_anchor_ids(z, y, idb);
            lemma_splice_children_shape(y, a);
            assert(splice_forest(splice_forest(y, b).0, a).0 == z.update(
                j,
                extend_children(z[j], b.drop_first()),
            ));
            assert(splice_forest(splice_forest(y, a).0, b).0 == z.update(
                j,
                extend_children(z[j], b.drop_first()),
            ));
        } else {
            lemma_splice_children_ids(y, a);
            lemma_splice_children_ids(y, b);
            lemma_find_anchor_ids(splice_children(y, a).0, y, idb);
            lemma_find_anchor_ids(splice_children(y, b).0, y, ida);
            lemma_children_order_independent(y, a, b);
        }
    }
}

/// The row form of order-independence: both batches carried through the
/// subtrees, in either order.
proof fn lemma_children_order_independent(y: Seq<NodeModel>, a: Seq<NodeModel>, b: Seq<NodeModel>)
    requires
        independent_batches(a, b),
    ensures
        splice_children(splice_children(y, a).0, b).0 == splice_children(
            splice_children(y, b).0,
            a,
        ).0,
        splice_children(splice_children(y, a).0, b).1 == splice_children(y, b).1,
        splice_children(splice_children(y, b).0, a).1 == splice_children(y, a).1,
    decreases y, 0int,
{
    if y.len() == 0 {
        let (za, a1, da) = splice_children(y, a);
        let (zb, b1, db) = splice_children(y, b);
        assert(za =~= y);
        assert(zb =~= y);
    } else {
        let h = y[0];
        let rest = y.drop_first();
        let (cA, a1, dA) = splice_forest(h.children, a);
        let (cB, b1, dB) = splice_forest(h.children, b);
        lemma_splice_forest_frame(h.children, a);
        lemma_splice_forest_frame(h.children, b);
        // The head subtree, both ways round.
        lemma_splice_order_independent(h.children, a, b);
        let cAB = splice_forest(cA, b).0;
        let cBA = splice_forest(cB, a).0;
        assert(cAB == cBA);
        assert(splice_forest(cA, b).1 == b1);
        assert(splice_forest(cB, a).1 == a1);
        // The leftover batches are still independent: each is what it was
        // or already spent.
        assert(independent_batches(a1, b1)) by {
            if a1.len() > 0 && b1.len() > 0 {
                assert(a1 == a && b1 == b);
            }
        }
        lemma_children_order_independent(rest, a1, b1);
        // Assemble the rows.
        let hA = with_children(h, cA);
        let (rA, a2, dA2) = splice_children(rest, a1);
        assert(splice_children(y, a) == (seq![hA] + rA, a2, (dA + dA2) as nat));
        let hB = with_children(h, cB);
        let (rB, b2, dB2) = splice_children(rest, b1);
        assert(splice_children(y, b) == (seq![hB] + rB, b2, (dB + dB2) as nat));
        // After the first batch, the second walks the same shape.
        assert((seq![hA] + rA)[0] == hA);
        assert((seq![hA] + rA).drop_first() =~= rA);
        assert((seq![hB] + rB)[0] == hB);
        assert((seq![hB] + rB).drop_first() =~= rB);
        assert(hA.children == cA);
        assert(hB.children == cB);
        let (cAB2, b1x, dABx) = splice_forest(cA, b);
        let (rAB, b2x, dAB2x) = splice_children(rA, b1x);
        assert(splice_children(seq![hA] + rA, b) == (
            seq![with_children(hA, cAB2)] + rAB,
            b2x,
            (dABx + dAB2x) as nat,
        ));
        let (cBA2, a1x, dBAx) = splice_forest(cB, a);
        let (rBA, a2x, dBA2x) = splice_children(rB, a1x);
        assert(splice_children(seq![hB] + rB, a) == (
            seq![with_children(hB, cBA2)] + rBA,
            a2x,
            (dBAx + dBA2x) as nat,
        ));
        // The threaded states agree with the single-batch runs.
        assert(b1x == b1);
        assert(a1x == a1);
        assert(with_children(hA, cAB2) =~~= with_children(hB, cBA2));
        assert(seq![with_children(hA, cAB2)] + rAB =~= seq![with_children(hB, cBA2)] + rBA) by {
            assert(rAB == rBA);
        }
    }
}

} // verus!
