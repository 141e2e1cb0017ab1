//! The sort engine: order every row of siblings, at every depth, by the
//! chosen key and direction.  Ties keep their original relative order;
//! the random order shuffles each row independently.

use vstd::prelude::*;
use crate::cli::{ElementSort, CLI, ElementFilter};
use crate::element::{Element, forest_model, lemma_forest_model_index, lemma_forest_model_snoc, NodeModel};
use crate::filter::{filter_elements, spec_filter};
use crate::merge::with_children;
use vstd::string::StringExecFns;
use rand::prelude::SliceRandom;

verus! {

/// The key one node sorts by under the given order.
pub open spec fn key_of(n: NodeModel, style: ElementSort) -> int {
    match style {
        ElementSort::Upvotes(_) => n.ups as int,
        ElementSort::Comments(_) => n.children.len() as int,
        ElementSort::Date(_) => n.created as int,
        ElementSort::EditedDate(_) => n.edited as int,
        _ => 0,
    }
}

/// Whether the order is ascending.
pub open spec fn ascending(style: ElementSort) -> bool {
    match style {
        ElementSort::Upvotes(b) => b,
        ElementSort::Comments(b) => b,
        ElementSort::Date(b) => b,
        ElementSort::EditedDate(b) => b,
        _ => true,
    }
}

/// `a` may stand before `b` under the order.
pub open spec fn le_key(style: ElementSort, a: NodeModel, b: NodeModel) -> bool {
    if ascending(style) {
        key_of(a, style) <= key_of(b, style)
    } else {
        key_of(a, style) >= key_of(b, style)
    }
}

/// `a` must stand strictly before `b` under the order.
pub open spec fn strictly_before(style: ElementSort, a: NodeModel, b: NodeModel) -> bool {
    if ascending(style) {
        key_of(a, style) < key_of(b, style)
    } else {
        key_of(a, style) > key_of(b, style)
    }
}

/// Insert a node into an ordered row: after every node it need not stand
/// strictly before, so that an equal key keeps the later arrival behind.
pub open spec fn insert_sorted(s: Seq<NodeModel>, e: NodeModel, style: ElementSort) -> Seq<
    NodeModel,
>
    decreases s,
{
    if s.len() > 0 && !strictly_before(style, e, s[0]) {
        seq![s[0]] + insert_sorted(s.drop_first(), e, style)
    } else {
        seq![e] + s
    }
}

/// One row ordered by the key: each node inserted in turn, left to right.
pub open spec fn spec_sort_level(s: Seq<NodeModel>, style: ElementSort) -> Seq<NodeModel>
    decreases s,
{
    if s.len() == 0 {
        s
    } else {
        insert_sorted(spec_sort_level(s.drop_last(), style), s.last(), style)
    }
}

/// The whole forest ordered: every node's subtree first, then its own row.
pub open spec fn spec_sort_forest(s: Seq<NodeModel>, style: ElementSort) -> Seq<NodeModel>
    decreases s, 1int,
{
    spec_sort_level(kids_sorted(s, style), style)
}

/// Each node of the row with its subtree ordered.
pub open spec fn kids_sorted(s: Seq<NodeModel>, style: ElementSort) -> Seq<NodeModel>
    decreases s, 0int,
{
    if s.len() == 0 {
        s
    } else {
        seq![with_children(s[0], spec_sort_forest(s[0].children, style))] + kids_sorted(
            s.drop_first(),
            style,
        )
    }
}

/// An ordered row stays ordered when a node is inserted.
proof fn lemma_insert_sorted_ordered(s: Seq<NodeModel>, e: NodeModel, style: ElementSort)
    requires
        forall|i: int, j: int| 0 <= i < j < s.len() ==> le_key(style, #[trigger] s[i], #[trigger] s[j]),
    ensures
        ({
            let t = insert_sorted(s, e, style);
            &&& t.len() == s.len() + 1
            &&& forall|i: int, j: int|
                0 <= i < j < t.len() ==> le_key(style, #[trigger] t[i], #[trigger] t[j])
        }),
    decreases s,
{
    if s.len() > 0 && !strictly_before(style, e, s[0]) {
        assert(s.drop_first().len() == s.len() - 1);
        assert(forall|i: int, j: int|
            0 <= i < j < s.drop_first().len() ==> le_key(
                style,
                #[trigger] s.drop_first()[i],
                #[trigger] s.drop_first()[j],
            ));
        lemma_insert_sorted_ordered(s.drop_first(), e, style);
        lemma_insert_sorted_len(s, e, style);
        let t0 = insert_sorted(s.drop_first(), e, style);
        let t = insert_sorted(s, e, style);
        assert(t == seq![s[0]] + t0);
        assert forall|i: int, j: int| 0 <= i < j < t.len() implies le_key(
            style,
            #[trigger] t[i],
            #[trigger] t[j],
        ) by {
            if i == 0 {
                assert(t[0] == s[0]);
                lemma_insert_membership(s.drop_first(), e, style, j - 1);
                assert(t[j] == t0[j - 1]);
            } else {
                assert(t[i] == t0[i - 1] && t[j] == t0[j - 1]);
            }
        }
    }
}

/// An insertion grows the row by exactly the inserted node.
proof fn lemma_insert_sorted_len(s: Seq<NodeModel>, e: NodeModel, style: ElementSort)
    ensures
        insert_sorted(s, e, style).len() == s.len() + 1,
    decreases s,
{
    if s.len() > 0 && !strictly_before(style, e, s[0]) {
        lemma_insert_sorted_len(s.drop_first(), e, style);
    }
}

/// Every node of an inserted row is the inserted node or one of the row.
proof fn lemma_insert_membership(s: Seq<NodeModel>, e: NodeModel, style: ElementSort, k: int)
    requires
        0 <= k < insert_sorted(s, e, style).len(),
    ensures
        insert_sorted(s, e, style)[k] == e || exists|m: int|
            0 <= m < s.len() && insert_sorted(s, e, style)[k] == s[m],
    decreases s,
{
    lemma_insert_sorted_len(s, e, style);
    if s.len() > 0 && !strictly_before(style, e, s[0]) {
        if k == 0 {
            assert(insert_sorted(s, e, style)[0] == s[0]);
        } else {
            lemma_insert_membership(s.drop_first(), e, style, k - 1);
            assert(insert_sorted(s, e, style)[k] == insert_sorted(s.drop_first(), e, style)[k
                - 1]);
            if insert_sorted(s.drop_first(), e, style)[k - 1] == e {
            } else {
                let m = choose|m: int|
                    0 <= m < s.drop_first().len() && insert_sorted(s.drop_first(), e, style)[k - 1]
                        == s.drop_first()[m];
                assert(s.drop_first()[m] == s[m + 1]);
            }
        }
    }
}

/// An ordered row: every earlier node may stand before every later one.
pub open spec fn row_ordered(s: Seq<NodeModel>, style: ElementSort) -> bool {
    forall|i: int, j: int| 0 <= i < j < s.len() ==> le_key(style, #[trigger] s[i], #[trigger] s[j])
}

/// Sorting a row leaves it the same length and ordered: the key sequence
/// of the result is monotonic in the requested direction.
pub proof fn lemma_sort_level_ordered(s: Seq<NodeModel>, style: ElementSort)
    ensures
        spec_sort_level(s, style).len() == s.len(),
        row_ordered(spec_sort_level(s, style), style),
    decreases s,
{
    if s.len() > 0 {
        lemma_sort_level_ordered(s.drop_last(), style);
        lemma_insert_sorted_ordered(spec_sort_level(s.drop_last(), style), s.last(), style);
    }
}

/// Where an insertion lands: before the first strictly-later node.
proof fn lemma_insert_sorted_at(s: Seq<NodeModel>, e: NodeModel, style: ElementSort, j: int)
    requires
        0 <= j <= s.len(),
        forall|k: int| 0 <= k < j ==> !strictly_before(style, e, #[trigger] s[k]),
        j < s.len() ==> strictly_before(style, e, s[j]),
    ensures
        insert_sorted(s, e, style) == s.take(j) + seq![e] + s.skip(j),
    decreases j,
{
    if j == 0 {
        if s.len() > 0 && !strictly_before(style, e, s[0]) {
            assert(false);
        }
        assert(insert_sorted(s, e, style) =~= s.take(0) + seq![e] + s.skip(0));
    } else {
        assert(!strictly_before(style, e, s[0]));
        assert(s.len() > 0);
        lemma_insert_sorted_at(s.drop_first(), e, style, j - 1);
        assert(s.drop_first().take(j - 1) =~= s.take(j).drop_first());
        assert(s.drop_first().skip(j - 1) =~= s.skip(j));
        assert(insert_sorted(s, e, style) =~= s.take(j) + seq![e] + s.skip(j));
    }
}

/// The key one node sorts by under the given order.
fn key_exec(e: &Element, style: ElementSort) -> (r: usize)
    ensures
        r as int == key_of(e.model(), style),
{
    proof {
        lemma_forest_model_index(e.children@);
    }
    match style {
        ElementSort::Upvotes(_) => e.ups,
        ElementSort::Comments(_) => e.children.len(),
        ElementSort::Date(_) => e.created,
        ElementSort::EditedDate(_) => e.edited,
        _ => 0,
    }
}

/// `a` must stand strictly before `b` under the order.
fn strictly_before_exec(a: &Element, b: &Element, style: ElementSort) -> (r: bool)
    ensures
        r == strictly_before(style, a.model(), b.model()),
{
    let asc = match style {
        ElementSort::Upvotes(b_) => b_,
        ElementSort::Comments(b_) => b_,
        ElementSort::Date(b_) => b_,
        ElementSort::EditedDate(b_) => b_,
        _ => true,
    };
    let ka = key_exec(a, style);
    let kb = key_exec(b, style);
    if asc {
        ka < kb
    } else {
        ka > kb
    }
}

/// Order one row by the key, ties keeping their original order.
#[verifier::loop_isolation(false)]
fn sort_level(elements: Vec<Element>, style: ElementSort) -> (r: Vec<Element>)
    ensures
        forest_model(r@) == spec_sort_level(forest_model(elements@), style),
{
    let ghost els0 = elements@;
    let mut els = elements;
    let mut out: Vec<Element> = Vec::new();
    proof {
        lemma_forest_model_index(els0);
        assert(forest_model(out@) =~= Seq::<NodeModel>::empty());
        assert(forest_model(els0.take(0)) =~= Seq::<NodeModel>::empty());
        assert(els@.skip(0) =~= els0);
    }
    while els.len() > 0
        invariant
            els@.len() <= els0.len(),
            els@ == els0.skip(els0.len() - els@.len()),
            forest_model(out@) == spec_sort_level(
                forest_model(els0.take(els0.len() - els@.len())),
                style,
            ),
        decreases els@.len(),
    {
        let ghost p = els0.len() - els@.len();
        let ghost elspre = els@;
        let ghost outpre = out@;
        let e = els.remove(0);
        proof {
            assert(elspre[0] == els0[p]);
            assert(e == els0[p]);
            assert(els@ =~= elspre.drop_first());
            assert(els@ =~= els0.skip(p + 1));
        }
        let n = out.len();
        let mut j: usize = 0;
        while j < n
            invariant
                j <= n,
                n == out@.len(),
                out@ == outpre,
                forall|k: int|
                    0 <= k < j ==> !strictly_before(
                        style,
                        e.model(),
                        #[trigger] forest_model(outpre)[k],
                    ),
            decreases n - j,
        {
            proof {
                lemma_forest_model_index(outpre);
            }
            if strictly_before_exec(&e, &out[j], style) {
                break;
            }
            j = j + 1;
        }
        proof {
            lemma_forest_model_index(outpre);
            lemma_insert_sorted_at(forest_model(outpre), e.model(), style, j as int);
        }
        out.insert(j, e);
        proof {
            assert(els0.take(p + 1).drop_last() =~= els0.take(p));
            assert(els0.take(p + 1).last() == els0[p]);
            assert(forest_model(els0.take(p + 1)) =~= forest_model(els0.take(p)).push(
                els0[p].model(),
            )) by {
                lemma_forest_model_snoc(els0.take(p), els0[p]);
                assert(els0.take(p).push(els0[p]) =~= els0.take(p + 1));
            }
            assert(forest_model(out@) =~= forest_model(outpre).take(j as int) + seq![e.model()]
                + forest_model(outpre).skip(j as int)) by {
                lemma_forest_model_index(out@);
                assert forall|k: int| 0 <= k < out@.len() implies #[trigger] forest_model(out@)[k]
                    == (forest_model(outpre).take(j as int) + seq![e.model()] + forest_model(
                    outpre,
                ).skip(j as int))[k] by {
                    if k < j {
                        assert(out@[k] == outpre[k]);
                    } else if k == j {
                        assert(out@[k] == e);
                    } else {
                        assert(out@[k] == outpre[k - 1]);
                    }
                }
            }
            assert(spec_sort_level(forest_model(els0.take(p + 1)), style) == insert_sorted(
                spec_sort_level(forest_model(els0.take(p)), style),
                els0[p].model(),
                style,
            )) by {
                assert(forest_model(els0.take(p + 1)).drop_last() =~= forest_model(els0.take(p)));
                assert(forest_model(els0.take(p + 1)).last() == els0[p].model());
                assert(forest_model(els0.take(p + 1)).len() > 0);
            }
        }
    }
    proof {
        assert(els0.take(els0.len() as int) =~= els0);
    }
    out
}

/// Relies on `rand`'s `SliceRandom::shuffle` with a fresh thread-local
/// generator: a shuffle permutes the row in place, so the same nodes come
/// back, as a multiset; nothing more can be said of a random order.
#[verifier::external_body]
fn shuffle_elements(v: &mut Vec<Element>)
    ensures
        final(v)@.len() == old(v)@.len(),
        forest_model(final(v)@).to_multiset() == forest_model(old(v)@).to_multiset(),
{
    let mut rng = rand::rng();
    v.shuffle(&mut rng);
}

/// `b` holds exactly the nodes of `a`, row for row at every depth, in
/// some order: a row of `a`'s nodes, each with its own subtree
/// rearranged, of which `b` is a permutation.  This is everything that
/// holds of every outcome of a random order; which permutation was drawn
/// is not a function of the input.
pub open spec fn rearranged(a: Seq<NodeModel>, b: Seq<NodeModel>) -> bool
    decreases a,
{
    exists|m: Seq<NodeModel>|
        {
            &&& #[trigger] m.to_multiset() == b.to_multiset()
            &&& m.len() == a.len()
            &&& forall|i: int|
                0 <= i < a.len() ==> (#[trigger] m[i]) == with_children(a[i], m[i].children)
                    && rearranged(a[i].children, m[i].children)
        }
}

/// Each node of `m` is the node of `a` at the same position, shell for
/// shell, with only its subtree rearranged: the row `rearranged` permutes.
pub open spec fn kids_rearranged(a: Seq<NodeModel>, m: Seq<NodeModel>) -> bool {
    &&& m.len() == a.len()
    &&& forall|i: int|
        0 <= i < a.len() ==> (#[trigger] m[i]) == with_children(a[i], m[i].children)
            && rearranged(a[i].children, m[i].children)
}

/// Rearranged rows have equal length.
pub proof fn lemma_rearranged_len(a: Seq<NodeModel>, b: Seq<NodeModel>)
    requires
        rearranged(a, b),
    ensures
        b.len() == a.len(),
{
    let m = choose|m: Seq<NodeModel>|
        {
            &&& #[trigger] m.to_multiset() == b.to_multiset()
            &&& m.len() == a.len()
            &&& forall|i: int|
                0 <= i < a.len() ==> (#[trigger] m[i]) == with_children(a[i], m[i].children)
                    && rearranged(a[i].children, m[i].children)
        };
    b.to_multiset_ensures();
    m.to_multiset_ensures();
}

/// A shell-rearranged row whose permutation is witnessed is rearranged.
proof fn lemma_rearranged_intro(a: Seq<NodeModel>, m: Seq<NodeModel>, b: Seq<NodeModel>)
    requires
        kids_rearranged(a, m),
        b.to_multiset() == m.to_multiset(),
    ensures
        rearranged(a, b),
{
    assert(m.to_multiset() == b.to_multiset());
}

/// The empty row is a rearrangement of the empty row.
proof fn lemma_rearranged_empty()
    ensures
        rearranged(Seq::<NodeModel>::empty(), Seq::<NodeModel>::empty()),
{
    let m = Seq::<NodeModel>::empty();
    assert(kids_rearranged(Seq::<NodeModel>::empty(), m));
    lemma_rearranged_intro(m, m, m);
}

/// Shell-rearrangement extends one pair at a time.
proof fn lemma_kids_rearranged_snoc(
    a: Seq<NodeModel>,
    m: Seq<NodeModel>,
    x: NodeModel,
    y: NodeModel,
)
    requires
        kids_rearranged(a, m),
        y == with_children(x, y.children),
        rearranged(x.children, y.children),
    ensures
        kids_rearranged(a.push(x), m.push(y)),
{
    assert forall|i: int| 0 <= i < a.push(x).len() implies (#[trigger] m.push(y)[i])
        == with_children(a.push(x)[i], m.push(y)[i].children) && rearranged(
        a.push(x)[i].children,
        m.push(y)[i].children,
    ) by {
        if i < a.len() {
            assert(m.push(y)[i] == m[i]);
            assert(a.push(x)[i] == a[i]);
        } else {
            assert(m.push(y)[i] == y);
            assert(a.push(x)[i] == x);
        }
    }
}

/// Order the whole forest, every row at every depth, by the chosen key;
/// `Err` exactly for an empty row.  The default order changes nothing;
/// the random order shuffles each row independently, keeping exactly the
/// nodes of every row (`rearranged`); the keyed orders equal the stable
/// sort of every row.
#[verifier::loop_isolation(false)]
pub fn sort_elements(elements: Vec<Element>, sort_style: ElementSort) -> (r: Result<
    Vec<Element>,
    String,
>)
    ensures
        ({
            let fm = forest_model(elements@);
            match r {
                Err(e) => elements@.len() == 0 && e@ == "elements empty"@,
                Ok(v) => elements@.len() > 0 && match sort_style {
                    ElementSort::Default => forest_model(v@) == fm,
                    ElementSort::Rand => v@.len() == elements@.len() && rearranged(
                        fm,
                        forest_model(v@),
                    ),
                    _ => forest_model(v@) == spec_sort_forest(fm, sort_style),
                },
            }
        }),
    decreases elements,
{
    proof {
        lemma_forest_model_index(elements@);
    }
    if elements.len() == 0 {
        return Err(String::from_str("elements empty"));
    }
    if matches!(sort_style, ElementSort::Default) {
        return Ok(elements);
    }
    // Every subtree first, then this row.
    let rand = matches!(sort_style, ElementSort::Rand);
    let ghost els0 = elements@;
    let ghost fm = forest_model(els0);
    let ghost ent = elements;
    let mut els = elements;
    let mut done: Vec<Element> = Vec::new();
    proof {
        assert(els@.skip(0) =~= els0);
        assert(forest_model(done@) =~= Seq::<NodeModel>::empty());
        assert(els0.take(0) =~= Seq::<Element>::empty());
        assert(forest_model(els0.take(0)) =~= Seq::<NodeModel>::empty());
        assert(kids_rearranged(forest_model(els0.take(0)), forest_model(done@)));
    }
    while els.len() > 0
        invariant
            done@.len() + els@.len() == els0.len(),
            els@ == els0.skip(done@.len() as int),
            !rand ==> kids_sorted(fm, sort_style) == forest_model(done@) + kids_sorted(
                forest_model(els@),
                sort_style,
            ),
            rand ==> kids_rearranged(
                forest_model(els0.take(done@.len() as int)),
                forest_model(done@),
            ),
        decreases els@.len(),
    {
        let ghost elspre = els@;
        let ghost donepre = done@;
        let e = els.remove(0);
        proof {
            assert(elspre[0] == els0[donepre.len() as int]);
            assert(els@ =~= elspre.drop_first());
            assert(els@ =~= els0.skip(donepre.len() as int + 1));
            lemma_forest_model_index(elspre);
            assert(forest_model(elspre)[0] == e.model());
            assert(e == ent@[donepre.len() as int]);
            assert(decreases_to!(ent => ent@[donepre.len() as int]));
            assert(decreases_to!(e => e.children));
        }
        let Element {
            author,
            data,
            kind,
            url,
            ups,
            children,
            depth,
            permalink,
            id,
            parent_id,
            over_18,
            created,
            edited,
        } = e;
        let ghost kids0 = children@;
        let kids = match sort_elements(children, sort_style) {
            Ok(v) => v,
            Err(_) => Vec::new(),
        };
        proof {
            if kids0.len() == 0 {
                lemma_forest_model_index(kids0);
                assert(kids0 =~= Seq::<Element>::empty());
                assert(forest_model(kids0) =~= Seq::<NodeModel>::empty());
                assert(kids@ =~= Seq::<Element>::empty());
                if !rand {
                    assert(spec_sort_forest(forest_model(kids0), sort_style)
                        =~= Seq::<NodeModel>::empty()) by {
                        assert(kids_sorted(forest_model(kids0), sort_style)
                            =~= Seq::<NodeModel>::empty());
                    }
                }
            }
        }
        let e2 = Element {
            author,
            data,
            kind,
            url,
            ups,
            children: kids,
            depth,
            permalink,
            id,
            parent_id,
            over_18,
            created,
            edited,
        };
        proof {
            if !rand {
                assert(e2.model() =~~= with_children(
                    forest_model(elspre)[0],
                    spec_sort_forest(forest_model(kids0), sort_style),
                ));
                assert(forest_model(elspre).drop_first() =~= forest_model(els@)) by {
                    lemma_forest_model_index(els@);
                    lemma_forest_model_index(elspre);
                    assert forall|k: int| 0 <= k < elspre.len() - 1 implies #[trigger]
                    forest_model(elspre).drop_first()[k] == forest_model(els@)[k] by {
                        assert(forest_model(elspre)[k + 1] == elspre[k + 1].model());
                        assert(els@[k] == elspre[k + 1]);
                    }
                }
                lemma_forest_model_snoc(donepre, e2);
                assert(forest_model(donepre.push(e2)) + kids_sorted(
                    forest_model(els@),
                    sort_style,
                ) =~= forest_model(donepre) + (seq![e2.model()] + kids_sorted(
                    forest_model(els@),
                    sort_style,
                )));
            } else {
                let p = donepre.len() as int;
                let x = forest_model(elspre)[0];
                assert(x.children == forest_model(kids0));
                assert(e2.model() =~~= with_children(x, e2.model().children));
                if kids0.len() == 0 {
                    assert(forest_model(kids@) =~= Seq::<NodeModel>::empty());
                    lemma_rearranged_empty();
                }
                assert(rearranged(x.children, e2.model().children));
                lemma_kids_rearranged_snoc(
                    forest_model(els0.take(p)),
                    forest_model(donepre),
                    x,
                    e2.model(),
                );
                lemma_forest_model_snoc(donepre, e2);
                assert(forest_model(els0.take(p + 1)) =~= forest_model(els0.take(p)).push(x)) by {
                    lemma_forest_model_snoc(els0.take(p), els0[p]);
                    assert(els0.take(p).push(els0[p]) =~= els0.take(p + 1));
                }
            }
        }
        done.push(e2);
    }
    proof {
        assert(els@ =~= Seq::<Element>::empty());
        assert(forest_model(els@) =~= Seq::<NodeModel>::empty());
        assert(els0.take(els0.len() as int) =~= els0);
        if !rand {
            assert(kids_sorted(forest_model(els@), sort_style) =~= Seq::<NodeModel>::empty());
            assert(kids_sorted(fm, sort_style) =~= forest_model(done@));
        }
        lemma_forest_model_index(done@);
    }
    if rand {
        let ghost m = forest_model(done@);
        let mut level = done;
        shuffle_elements(&mut level);
        proof {
            assert(kids_rearranged(fm, m));
            assert(forest_model(level@).to_multiset() == m.to_multiset());
            lemma_rearranged_intro(fm, m, forest_model(level@));
            lemma_forest_model_index(level@);
        }
        Ok(level)
    } else {
        let out = sort_level(done, sort_style);
        Ok(out)
    }
}

/// An owned filter with the same meaning, for handing to the filter
/// engine without giving up the run configuration.
fn clone_filter(f: &ElementFilter) -> (r: ElementFilter)
    ensures
        r.model() == f.model(),
{
    match f {
        ElementFilter::Default => ElementFilter::Default,
        ElementFilter::Upvotes(op) => ElementFilter::Upvotes(clone_filter_op(op)),
        ElementFilter::Comments(op) => ElementFilter::Comments(clone_filter_op(op)),
        ElementFilter::Author(op) => ElementFilter::Author(clone_filter_op(op)),
        ElementFilter::Edited(b) => ElementFilter::Edited(*b),
    }
}

/// An owned comparison with the same meaning.
fn clone_filter_op(op: &crate::cli::ElementFilterOp) -> (r: crate::cli::ElementFilterOp)
    ensures
        r.model() == op.model(),
{
    match op {
        crate::cli::ElementFilterOp::EqString(s) => crate::cli::ElementFilterOp::EqString(
            s.clone(),
        ),
        crate::cli::ElementFilterOp::NotEqString(s) => crate::cli::ElementFilterOp::NotEqString(
            s.clone(),
        ),
        crate::cli::ElementFilterOp::Eq(n) => crate::cli::ElementFilterOp::Eq(*n),
        crate::cli::ElementFilterOp::NotEq(n) => crate::cli::ElementFilterOp::NotEq(*n),
        crate::cli::ElementFilterOp::Grater(n) => crate::cli::ElementFilterOp::Grater(*n),
        crate::cli::ElementFilterOp::GraterEq(n) => crate::cli::ElementFilterOp::GraterEq(*n),
        crate::cli::ElementFilterOp::Less(n) => crate::cli::ElementFilterOp::Less(*n),
        crate::cli::ElementFilterOp::LessEq(n) => crate::cli::ElementFilterOp::LessEq(*n),
    }
}

/// Filter, then order, the finished forest, leaving the leading root post
/// where it stands: a row of at most one node is handed back untouched; a
/// filter that leaves nothing gives `None` for the caller to report; a
/// pruned row of at most two nodes is already in order; a longer row
/// keeps its first node (the root post) in place and orders the rest.
pub fn sort_elements_(elements: Vec<Element>, cli: &CLI) -> (r: Option<Vec<Element>>)
    ensures
        ({
            let fm = forest_model(elements@);
            if fm.len() <= 1 {
                r matches Some(v) && forest_model(v@) == fm
            } else {
                match spec_filter(fm, cli.filter.model(), Seq::empty()) {
                    None => r is None,
                    Some(p) => match r {
                        None => false,
                        Some(v) => (p.0.len() <= 2 ==> forest_model(v@) == p.0) && (p.0.len() > 2
                            ==> forest_model(v@).len() == p.0.len() && forest_model(v@)[0]
                            == p.0.first() && (match cli.sort_style {
                            ElementSort::Default => forest_model(v@).skip(1) == p.0.drop_first(),
                            ElementSort::Rand => rearranged(
                                p.0.drop_first(),
                                forest_model(v@).skip(1),
                            ),
                            _ => forest_model(v@).skip(1) == spec_sort_forest(
                                p.0.drop_first(),
                                cli.sort_style,
                            ),
                        })),
                    },
                }
            }
        }),
{
    proof {
        lemma_forest_model_index(elements@);
    }
    if elements.len() <= 1 {
        return Some(elements);
    }
    let empty_req: Vec<String> = Vec::new();
    proof {
        assert(empty_req.deep_view() =~= Seq::<Seq<char>>::empty());
    }
    let filtered = match filter_elements(elements, clone_filter(&cli.filter), empty_req) {
        Some(p) => p.0,
        None => {
            return None;
        },
    };
    proof {
        lemma_forest_model_index(filtered@);
    }
    if filtered.len() <= 2 {
        return Some(filtered);
    }
    let ghost filt0 = filtered@;
    let mut rest = filtered;
    let head = rest.remove(0);
    proof {
        assert(head == filt0[0]);
        assert(rest@ =~= filt0.drop_first());
        lemma_forest_model_index(rest@);
    }
    let ghost fh = head.model();
    let sorted = match sort_elements(rest, cli.sort_style) {
        Ok(v) => v,
        Err(_) => Vec::new(),
    };
    proof {
        lemma_forest_model_index(sorted@);
        match cli.sort_style {
            ElementSort::Default => {},
            ElementSort::Rand => {},
            _ => {
                lemma_sort_level_ordered(
                    kids_sorted(forest_model(filt0.drop_first()), cli.sort_style),
                    cli.sort_style,
                );
                lemma_kids_sorted_len(forest_model(filt0.drop_first()), cli.sort_style);
            },
        }
    }
    let ghost sorted0 = sorted@;
    let mut out: Vec<Element> = Vec::new();
    out.push(head);
    let mut sorted = sorted;
    out.append(&mut sorted);
    proof {
        lemma_forest_model_index(out@);
        assert(forest_model(out@)[0] == fh);
        assert(fh == forest_model(filt0)[0]);
        assert(forest_model(rest@) =~= forest_model(filt0).drop_first()) by {
            assert forall|k: int| 0 <= k < rest@.len() implies #[trigger] forest_model(rest@)[k]
                == forest_model(filt0).drop_first()[k] by {
                assert(forest_model(rest@)[k] == rest@[k].model());
                assert(rest@[k] == filt0[k + 1]);
                assert(forest_model(filt0)[k + 1] == filt0[k + 1].model());
            }
        }
        assert(forest_model(out@).skip(1) =~= forest_model(sorted0)) by {
            lemma_forest_model_index(sorted0);
            assert forall|k: int| 0 <= k < sorted0.len() implies #[trigger] forest_model(
                out@,
            ).skip(1)[k] == forest_model(sorted0)[k] by {
                assert(forest_model(out@)[k + 1] == out@[k + 1].model());
                assert(out@[k + 1] == sorted0[k]);
            }
        }
    }
    Some(out)
}

/// Ordering the subtrees leaves the row the same length.
pub proof fn lemma_kids_sorted_len(s: Seq<NodeModel>, style: ElementSort)
    ensures
        kids_sorted(s, style).len() == s.len(),
    decreases s,
{
    if s.len() > 0 {
        lemma_kids_sorted_len(s.drop_first(), style);
    }
}

/// The subsequence of a row whose nodes carry the key `k`, in row order.
pub open spec fn ties(s: Seq<NodeModel>, style: ElementSort, k: int) -> Seq<NodeModel>
    decreases s,
{
    if s.len() == 0 {
        s
    } else {
        (if key_of(s[0], style) == k {
            seq![s[0]]
        } else {
            Seq::empty()
        }) + ties(s.drop_first(), style, k)
    }
}

/// A row with no `k`-keyed node has no `k`-keyed subsequence.
proof fn lemma_ties_empty(s: Seq<NodeModel>, style: ElementSort, k: int)
    requires
        forall|i: int| 0 <= i < s.len() ==> key_of(#[trigger] s[i], style) != k,
    ensures
        ties(s, style, k) == Seq::<NodeModel>::empty(),
    decreases s,
{
    if s.len() > 0 {
        assert(forall|i: int|
            0 <= i < s.drop_first().len() ==> key_of(#[trigger] s.drop_first()[i], style) != k);
        lemma_ties_empty(s.drop_first(), style, k);
        assert(ties(s, style, k) =~= Seq::<NodeModel>::empty());
    }
}

/// Taking the last node off a row takes it off the tail of its key's
/// subsequence.
proof fn lemma_ties_snoc(s: Seq<NodeModel>, style: ElementSort, k: int)
    requires
        s.len() > 0,
    ensures
        ties(s, style, k) == (if key_of(s.last(), style) == k {
            ties(s.drop_last(), style, k).push(s.last())
        } else {
            ties(s.drop_last(), style, k)
        }),
    decreases s,
{
    if s.len() == 1 {
        assert(s.drop_last() =~= Seq::<NodeModel>::empty());
        assert(s.drop_first() =~= Seq::<NodeModel>::empty());
        if key_of(s[0], style) == k {
            assert(ties(s, style, k) =~= ties(s.drop_last(), style, k).push(s.last()));
        } else {
            assert(ties(s, style, k) =~= ties(s.drop_last(), style, k));
        }
    } else {
        lemma_ties_snoc(s.drop_first(), style, k);
        assert(s.drop_first().drop_last() =~= s.drop_last().drop_first());
        assert(s.drop_first().last() == s.last());
        assert(s.drop_last()[0] == s[0]);
        assert(s.drop_last().len() > 0);
        if key_of(s.last(), style) == k {
            assert(ties(s, style, k) =~= ties(s.drop_last(), style, k).push(s.last()));
        } else {
            assert(ties(s, style, k) =~= ties(s.drop_last(), style, k));
        }
    }
}

/// Inserting into an ordered row appends the new node to its key's
/// subsequence and leaves every other key's subsequence alone.
proof fn lemma_insert_ties(s: Seq<NodeModel>, e: NodeModel, style: ElementSort, k: int)
    requires
        row_ordered(s, style),
    ensures
        ties(insert_sorted(s, e, style), style, k) == (if key_of(e, style) == k {
            ties(s, style, k).push(e)
        } else {
            ties(s, style, k)
        }),
    decreases s,
{
    let t = insert_sorted(s, e, style);
    if s.len() > 0 && !strictly_before(style, e, s[0]) {
        assert(forall|i: int, j: int|
            0 <= i < j < s.drop_first().len() ==> le_key(
                style,
                #[trigger] s.drop_first()[i],
                #[trigger] s.drop_first()[j],
            ));
        lemma_insert_ties(s.drop_first(), e, style, k);
        assert(t == seq![s[0]] + insert_sorted(s.drop_first(), e, style));
        assert(t[0] == s[0]);
        assert(t.drop_first() =~= insert_sorted(s.drop_first(), e, style));
        if key_of(e, style) == k {
            assert(ties(t, style, k) =~= ties(s, style, k).push(e));
        } else {
            assert(ties(t, style, k) =~= ties(s, style, k));
        }
    } else {
        assert(t == seq![e] + s);
        assert(t[0] == e);
        assert(t.drop_first() =~= s);
        if key_of(e, style) == k {
            // The new node stands before the row, so nothing of the row
            // carries its key: everything is strictly after it.
            assert forall|i: int| 0 <= i < s.len() implies key_of(#[trigger] s[i], style) != k by {
                assert(strictly_before(style, e, s[0]));
                if i > 0 {
                    assert(le_key(style, s[0], s[i]));
                }
            }
            lemma_ties_empty(s, style, k);
            assert(ties(t, style, k) =~= ties(s, style, k).push(e));
        } else {
            assert(ties(t, style, k) =~= ties(s, style, k));
        }
    }
}

/// Ordering a row is stable: for every key, the nodes carrying that key
/// come out in the order they went in.
pub proof fn lemma_sort_level_stable(s: Seq<NodeModel>, style: ElementSort, k: int)
    ensures
        ties(spec_sort_level(s, style), style, k) == ties(s, style, k),
    decreases s,
{
    if s.len() > 0 {
        lemma_sort_level_stable(s.drop_last(), style, k);
        lemma_sort_level_ordered(s.drop_last(), style);
        lemma_insert_ties(spec_sort_level(s.drop_last(), style), s.last(), style, k);
        lemma_ties_snoc(s, style, k);
    }
}

} // verus!
