use rand::RngExt;
use srp::cli::{ElementFilter, ElementFilterOp, ElementSort};
use srp::decode::RunStats;
use srp::element::Element;
use srp::filter::filter_elements;
use srp::jsonio::{decode_root, resolve_more, MoreStatus};
use srp::merge::append_element;
use srp::sort::{sort_elements, sort_elements_};

fn st(x: &str) -> String {
    x.into()
}

fn mk(id: &str, parent: &str, author: &str, ups: usize, children: Vec<Element>) -> Element {
    Element::new(
        st(author),
        st("text"),
        st("t1"),
        st(""),
        ups,
        children,
        st("0"),
        st(""),
        st(id),
        st(parent),
        false,
        0,
        1,
    )
}

#[test]
fn node_identity_is_the_id_alone() {
    let a = mk("x1", "", "alice", 5, vec![]);
    let b = mk("x1", "", "bob", 99, vec![]);
    let c = mk("x2", "", "alice", 5, vec![]);
    assert_eq!(a, b);
    assert_ne!(a, c);
}

#[test]
fn sort_elements_empty() {
    assert_eq!(
        sort_elements(vec![], ElementSort::Default),
        Err(st("elements empty"))
    );
}

#[test]
fn sort_elements_one() {
    assert_eq!(
        sort_elements(vec![Element::default()], ElementSort::Default),
        Ok(vec![Element::default()])
    );
}

#[test]
fn filter_elements_empty() {
    assert_eq!(
        filter_elements(vec![], ElementFilter::Default, vec![]),
        None
    );
}

#[test]
fn filter_elements_one() {
    assert_eq!(
        filter_elements(vec![Element::default()], ElementFilter::Default, vec![]),
        Some((vec![Element::default()], Vec::new()))
    );
}

fn ups_sorted_elements_list(n: usize) -> Vec<Element> {
    let mut rng = rand::rng();
    let mut out = Vec::new();
    let mut ups = 0usize;
    for _ in 0..=n {
        ups += rng.random_range(1..10);
        out.push(Element::new(
            st(""),
            st(""),
            st(""),
            st(""),
            ups,
            vec![],
            st(""),
            st(""),
            st(""),
            st(""),
            false,
            0,
            1,
        ));
    }
    out
}

#[test]
fn test_sort_elements_rng() {
    let sorted = ups_sorted_elements_list(10);
    assert_eq!(
        sort_elements(sorted.clone(), ElementSort::Upvotes(true)),
        Ok(sorted)
    );
    let sorted = ups_sorted_elements_list(10000);
    let mut sorted_rev = sorted.clone();
    sorted_rev.reverse();
    assert_eq!(
        sort_elements(sorted.clone(), ElementSort::Upvotes(false)),
        Ok(sorted_rev)
    );
}

#[test]
fn sorting_orders_keys_and_recurses() {
    let kids = vec![mk("c1", "p", "", 1, vec![]), mk("c2", "p", "", 9, vec![]), mk(
        "c3", "p", "", 4,
        vec![],
    )];
    let forest = vec![mk("p", "", "", 7, kids), mk("q", "", "", 3, vec![])];
    let out = sort_elements(forest, ElementSort::Upvotes(false)).unwrap();
    let top: Vec<usize> = out.iter().map(|e| e.ups).collect();
    assert_eq!(top, vec![7, 3]);
    let inner: Vec<usize> = out[0].children.iter().map(|e| e.ups).collect();
    assert_eq!(inner, vec![9, 4, 1]);
}

#[test]
fn sorting_keeps_ties_in_arrival_order() {
    let forest = vec![
        mk("a", "", "", 5, vec![]),
        mk("b", "", "", 5, vec![]),
        mk("c", "", "", 2, vec![]),
        mk("d", "", "", 5, vec![]),
    ];
    let out = sort_elements(forest, ElementSort::Upvotes(false)).unwrap();
    let ids: Vec<String> = out.iter().map(|e| e.id.clone()).collect();
    assert_eq!(ids, vec![st("a"), st("b"), st("d"), st("c")]);
}

#[test]
fn random_order_keeps_the_nodes() {
    let forest = vec![
        mk("a", "", "", 1, vec![]),
        mk("b", "", "", 2, vec![]),
        mk("c", "", "", 3, vec![]),
        mk("d", "", "", 4, vec![]),
    ];
    let out = sort_elements(forest, ElementSort::Rand).unwrap();
    assert_eq!(out.len(), 4);
    let mut ids: Vec<String> = out.iter().map(|e| e.id.clone()).collect();
    ids.sort();
    assert_eq!(ids, vec![st("a"), st("b"), st("c"), st("d")]);
}

#[test]
fn random_order_keeps_every_row() {
    let kids = vec![
        mk("k1", "p", "", 1, vec![]),
        mk("k2", "p", "", 2, vec![]),
        mk("k3", "p", "", 3, vec![]),
    ];
    let forest = vec![mk("p", "", "", 1, kids), mk("q", "", "", 2, vec![])];
    let out = sort_elements(forest, ElementSort::Rand).unwrap();
    let mut top: Vec<String> = out.iter().map(|e| e.id.clone()).collect();
    top.sort();
    assert_eq!(top, vec![st("p"), st("q")]);
    let p = out.iter().find(|e| e.id == "p").unwrap();
    let mut inner: Vec<String> = p.children.iter().map(|e| e.id.clone()).collect();
    inner.sort();
    assert_eq!(inner, vec![st("k1"), st("k2"), st("k3")]);
}

#[test]
fn filter_round_trip_keeps_ancestors() {
    // The fixture forest: the root post and four replies, one of which
    // has two nested children.
    let r3_kids = vec![mk("c1", "r3", "", 10, vec![]), mk("c2", "r3", "", 1, vec![])];
    let forest = vec![
        mk("root", "", "", 100, vec![]),
        mk("r1", "root", "", 5, vec![]),
        mk("r2", "root", "", 2, vec![]),
        mk("r3", "root", "", 2, r3_kids),
        mk("r4", "root", "", 4, vec![]),
    ];
    let (kept, _req) = filter_elements(
        forest,
        ElementFilter::Upvotes(ElementFilterOp::Grater(3)),
        vec![],
    )
    .unwrap();
    let ids: Vec<String> = kept.iter().map(|e| e.id.clone()).collect();
    // r2 (two upvotes, nothing below) is gone; r3 (two upvotes, but a
    // ten-upvote child) stays, with that child.
    assert_eq!(ids, vec![st("root"), st("r1"), st("r3"), st("r4")]);
    let r3 = &kept[2];
    assert_eq!(r3.children.len(), 1);
    assert_eq!(r3.children[0].id, st("c1"));
}

#[test]
fn edited_filter_tests_the_sentinel() {
    let mut never = mk("a", "", "", 1, vec![]);
    never.edited = usize::MAX;
    let mut edited = mk("b", "", "", 1, vec![]);
    edited.edited = 1000;
    let (kept, _) = filter_elements(
        vec![never, edited],
        ElementFilter::Edited(true),
        vec![],
    )
    .unwrap();
    let ids: Vec<String> = kept.iter().map(|e| e.id.clone()).collect();
    assert_eq!(ids, vec![st("b")]);
}

#[test]
fn author_filter_compares_names() {
    let forest = vec![
        mk("a", "", "ann", 1, vec![]),
        mk("b", "", "ben", 1, vec![]),
    ];
    let (kept, _) = filter_elements(
        forest,
        ElementFilter::Author(ElementFilterOp::EqString(st("ann"))),
        vec![],
    )
    .unwrap();
    assert_eq!(kept.len(), 1);
    assert_eq!(kept[0].id, st("a"));
}

const ROOT_BODY: &str = r#"[{"data":{"children":[
  {"kind":"t3","data":{"name":"t3_root","id":"root","title":"hello","selftext":"world",
    "author":"ann","ups":10,"permalink":"/r/x/root","num_comments":7,
    "created":1000.5,"edited":false,"over_18":false,"depth":0}},
  {"kind":"more","data":{"count":3,"children":["aaa","bbb","ccc"]}}
]}}]"#;

const ROOT_BODY_NO_STUB: &str = r#"[{"data":{"children":[
  {"kind":"t3","data":{"name":"t3_root","id":"root","title":"hello","selftext":"world",
    "author":"ann","ups":10,"permalink":"/r/x/root","num_comments":7,
    "created":1000.5,"edited":false,"over_18":false,"depth":0}}
]}}]"#;

fn more_body(id: &str) -> String {
    format!(
        r#"[{{"data":{{"children":[
      {{"kind":"t1","data":{{"name":"t1_root","id":"root"}}}},
      {{"kind":"t1","data":{{"name":"t1_{id}","id":"{id}","parent_id":"t1_root","ups":2}}}}
    ]}}}}]"#
    )
}

#[test]
fn decoding_reads_the_fields() {
    let mut stats = RunStats::new();
    let forest = decode_root(ROOT_BODY, usize::MAX, &mut stats).unwrap();
    assert_eq!(forest.len(), 1);
    let root = &forest[0];
    assert_eq!(root.id, st("root"));
    assert_eq!(root.author, st("ann"));
    assert_eq!(root.kind, st("t3"));
    assert_eq!(root.data, st("hello\nworld"));
    assert_eq!(root.ups, 10);
    assert_eq!(root.created, 1000);
    assert_eq!(root.edited, usize::MAX);
    assert!(!root.over_18);
    assert_eq!(root.permalink, st("/r/x/root"));
    assert_eq!(stats.elements_count, 2);
    assert_eq!(stats.num_comments, 7);
    assert_eq!(stats.more_elements_count, 3);
    assert_eq!(stats.more_elements, vec![st("aaa"), st("bbb"), st("ccc")]);
}

#[test]
fn stubs_register_without_changing_the_nodes() {
    let mut with_stub = RunStats::new();
    let a = decode_root(ROOT_BODY, usize::MAX, &mut with_stub).unwrap();
    let mut without_stub = RunStats::new();
    let b = decode_root(ROOT_BODY_NO_STUB, usize::MAX, &mut without_stub).unwrap();
    assert_eq!(a, b);
    assert_eq!(with_stub.elements_count, without_stub.elements_count);
    assert_eq!(without_stub.more_elements_count, 0);
    assert!(without_stub.more_elements.is_empty());
    assert_eq!(with_stub.more_elements.len(), 3);
}

#[test]
fn decode_root_rejects_bad_payload() {
    let mut stats = RunStats::new();
    assert!(decode_root("this is not json {", usize::MAX, &mut stats).is_err());
    assert_eq!(stats.elements_count, 1);
}

#[test]
fn resolving_merges_every_stub() {
    // The end-to-end count: a listing with a stub of three ids; each fetch
    // returns its anchor plus one reply, so every merge adds two decoded
    // nodes and takes the double-counted anchor off again.
    let mut stats = RunStats::new();
    let mut forest = decode_root(ROOT_BODY, usize::MAX, &mut stats).unwrap();
    let before = stats.elements_count;
    assert_eq!(before, 2);
    let ids = stats.more_elements.clone();
    assert_eq!(ids.len(), 3);
    for id in &ids {
        let body = more_body(id);
        let status = resolve_more(&body, &mut forest, &mut stats, usize::MAX);
        assert_eq!(status, MoreStatus::Spliced);
    }
    assert_eq!(stats.elements_count, before + 2 * 3 - 3);
    assert_eq!(forest.len(), 1);
    let kids: Vec<String> = forest[0].children.iter().map(|e| e.id.clone()).collect();
    assert_eq!(kids, vec![st("aaa"), st("bbb"), st("ccc")]);
}

#[test]
fn resolving_is_order_independent_here() {
    let mut ids = vec![st("aaa"), st("bbb"), st("ccc")];
    let mut shapes: Vec<Vec<String>> = Vec::new();
    for _ in 0..2 {
        let mut stats = RunStats::new();
        let mut forest = decode_root(ROOT_BODY, usize::MAX, &mut stats).unwrap();
        for id in &ids {
            let body = more_body(id);
            resolve_more(&body, &mut forest, &mut stats, usize::MAX);
        }
        let mut kids: Vec<String> = forest[0].children.iter().map(|e| e.id.clone()).collect();
        kids.sort();
        shapes.push(kids);
        ids.reverse();
    }
    assert_eq!(shapes[0], shapes[1]);
}

#[test]
fn flat_batches_join_the_top_level() {
    let mut stats = RunStats::new();
    let mut forest = decode_root(ROOT_BODY_NO_STUB, usize::MAX, &mut stats).unwrap();
    let body = r#"[{"data":{"children":[
      {"kind":"t1","data":{"name":"t1_p","id":"p","replies":{"data":{"children":[
        {"kind":"t1","data":{"name":"t1_q","id":"q","parent_id":"t1_p"}}
      ]}}}}
    ]}}]"#;
    let status = resolve_more(body, &mut forest, &mut stats, usize::MAX);
    assert_eq!(status, MoreStatus::Flat);
    let ids: Vec<String> = forest.iter().map(|e| e.id.clone()).collect();
    assert_eq!(ids, vec![st("root"), st("q")]);
}

#[test]
fn unmatched_continuations_are_discarded() {
    let mut stats = RunStats::new();
    let mut forest = decode_root(ROOT_BODY_NO_STUB, usize::MAX, &mut stats).unwrap();
    let body = r#"[{"data":{"children":[
      {"kind":"t1","data":{"name":"t1_zzz","id":"zzz"}},
      {"kind":"t1","data":{"name":"t1_w","id":"w","parent_id":"t1_zzz"}}
    ]}}]"#;
    let before = stats.elements_count;
    let status = resolve_more(body, &mut forest, &mut stats, usize::MAX);
    assert_eq!(status, MoreStatus::Discarded);
    // The two decoded nodes were counted, but nothing joined the forest
    // and no anchor came off the count.
    assert_eq!(stats.elements_count, before + 2);
    assert_eq!(forest.len(), 1);
    assert!(forest[0].children.is_empty());
}

#[test]
fn resolving_honours_the_budget_and_bad_payloads() {
    let mut stats = RunStats::new();
    let mut forest = decode_root(ROOT_BODY, usize::MAX, &mut stats).unwrap();
    let status = resolve_more("anything", &mut forest, &mut stats, 2);
    assert_eq!(status, MoreStatus::Skipped);
    let status = resolve_more("not json [", &mut forest, &mut stats, usize::MAX);
    assert_eq!(status, MoreStatus::Failed);
    assert_eq!(stats.elements_count, 2);
}

#[test]
fn splice_finds_the_first_match_depth_first() {
    let anchor = mk("k", "p", "", 0, vec![]);
    let nested = mk("p", "", "", 0, vec![anchor]);
    let mut forest = vec![nested, mk("z", "", "", 0, vec![])];
    let mut batch = vec![
        mk("k", "p", "", 0, vec![]),
        mk("n1", "k", "", 0, vec![]),
        mk("n2", "k", "", 0, vec![]),
    ];
    let mut stats = RunStats::new();
    stats.elements_count = 10;
    append_element(&mut batch, &mut forest, &mut stats);
    assert_eq!(stats.elements_count, 9);
    assert!(batch.is_empty());
    let target = &forest[0].children[0];
    assert_eq!(target.id, st("k"));
    let kids: Vec<String> = target.children.iter().map(|e| e.id.clone()).collect();
    assert_eq!(kids, vec![st("n1"), st("n2")]);
}

#[test]
fn unmatched_batches_change_nothing() {
    let mut forest = vec![mk("a", "", "", 0, vec![])];
    let mut batch = vec![mk("x", "", "", 0, vec![]), mk("y", "x", "", 0, vec![])];
    let mut stats = RunStats::new();
    stats.elements_count = 5;
    append_element(&mut batch, &mut forest, &mut stats);
    assert_eq!(stats.elements_count, 5);
    assert_eq!(batch.len(), 2);
    assert_eq!(forest.len(), 1);
    assert!(forest[0].children.is_empty());
}

#[test]
fn pipeline_keeps_the_root_post_first() {
    let forest = vec![
        mk("root", "", "", 0, vec![]),
        mk("a", "root", "", 3, vec![]),
        mk("b", "root", "", 9, vec![]),
        mk("c", "root", "", 6, vec![]),
    ];
    let cli = srp::cli::CLI {
        url: st(""),
        base_url: st(""),
        save_to_file: false,
        save_path: st(""),
        max_comments: usize::MAX,
        sort_style: ElementSort::Upvotes(false),
        filter: ElementFilter::Default,
        save_tmp_files: false,
        verbosity: srp::cli::Verbosity::Low,
        req_more_elements: true,
        delete_tmp: false,
    };
    let out = sort_elements_(forest, &cli).unwrap();
    let ids: Vec<String> = out.iter().map(|e| e.id.clone()).collect();
    assert_eq!(ids, vec![st("root"), st("b"), st("c"), st("a")]);
}
