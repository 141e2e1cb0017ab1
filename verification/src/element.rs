//! The node type of the reconstructed discussion tree.

use vstd::prelude::*;
use vstd::std_specs::cmp::PartialEqSpec;

verus! {

/// Marker for an absent or empty piece of data.
#[derive(Debug)]
pub struct Empty;

/// Output format chosen once per run.
#[derive(Clone, Copy, Debug, PartialEq, Eq, Structural)]
pub enum Format {
    Default,
    HTML,
    JSON,
}

/// One post or comment of the discussion.  `children` is exclusively owned
/// by its parent: the forest is a strict tree, no sharing and no cycles.
///
/// `created` and `edited` are epoch seconds; `usize::MAX` is the reserved
/// sentinel meaning "unknown" respectively "never edited".
#[derive(Debug)]
pub struct Element {
    pub author: String,
    pub data: String,
    pub kind: String,
    pub url: String,
    pub ups: usize,
    pub children: Vec<Element>,
    pub depth: String,
    pub permalink: String,
    pub id: String,
    pub parent_id: String,
    pub over_18: bool,
    pub created: usize,
    pub edited: usize,
}

impl Element {
    /// Plain constructor; the fields are taken as given.
    pub fn new(
        author: String,
        data: String,
        kind: String,
        url: String,
        ups: usize,
        children: Vec<Element>,
        depth: String,
        permalink: String,
        id: String,
        parent_id: String,
        over_18: bool,
        created: usize,
        edited: usize,
    ) -> (r: Element)
        ensures
            r.author == author,
            r.data == data,
            r.kind == kind,
            r.url == url,
            r.ups == ups,
            r.children == children,
            r.depth == depth,
            r.permalink == permalink,
            r.id == id,
            r.parent_id == parent_id,
            r.over_18 == over_18,
            r.created == created,
            r.edited == edited,
    {
        Element {
            author,
            data,
            kind,
            url,
            ups,
            children,
            depth,
            permalink,
            id,
            parent_id,
            over_18,
            created,
            edited,
        }
    }
}

/// The mathematical value of a node: text as character sequences, the
/// children as a sequence of node values.
#[verifier::ext_equal]
pub struct NodeModel {
    pub author: Seq<char>,
    pub data: Seq<char>,
    pub kind: Seq<char>,
    pub url: Seq<char>,
    pub ups: usize,
    pub children: Seq<NodeModel>,
    pub depth: Seq<char>,
    pub permalink: Seq<char>,
    pub id: Seq<char>,
    pub parent_id: Seq<char>,
    pub over_18: bool,
    pub created: usize,
    pub edited: usize,
}

impl Element {
    /// The value this node denotes.
    pub open spec fn model(self) -> NodeModel
        decreases self,
    {
        NodeModel {
            author: self.author@,
            data: self.data@,
            kind: self.kind@,
            url: self.url@,
            ups: self.ups,
            children: forest_model(self.children@),
            depth: self.depth@,
            permalink: self.permalink@,
            id: self.id@,
            parent_id: self.parent_id@,
            over_18: self.over_18,
            created: self.created,
            edited: self.edited,
        }
    }
}

/// The values of a whole forest, in order.
pub open spec fn forest_model(s: Seq<Element>) -> Seq<NodeModel>
    decreases s,
{
    if s.len() == 0 {
        Seq::empty()
    } else {
        seq![s[0].model()] + forest_model(s.drop_first())
    }
}

/// A forest's values are its nodes' values, position by position.
pub proof fn lemma_forest_model_index(s: Seq<Element>)
    ensures
        forest_model(s).len() == s.len(),
        forall|i: int| 0 <= i < s.len() ==> #[trigger] forest_model(s)[i] == s[i].model(),
    decreases s,
{
    if s.len() > 0 {
        lemma_forest_model_index(s.drop_first());
        assert forall|i: int| 0 <= i < s.len() implies #[trigger] forest_model(s)[i]
            == s[i].model() by {
            if i > 0 {
                assert(s.drop_first()[i - 1] == s[i]);
                assert(forest_model(s.drop_first())[i - 1] == s.drop_first()[i - 1].model());
            }
        }
    }
}

/// Appending one node to a forest appends its value to the forest's value.
pub proof fn lemma_forest_model_snoc(s: Seq<Element>, e: Element)
    ensures
        forest_model(s.push(e)) == forest_model(s).push(e.model()),
    decreases s,
{
    if s.len() == 0 {
        assert(s.push(e).drop_first() =~= Seq::<Element>::empty());
        assert(s.push(e)[0] == e);
        assert(forest_model(Seq::<Element>::empty()) == Seq::<NodeModel>::empty());
        assert(forest_model(s.push(e)) == seq![e.model()] + Seq::<NodeModel>::empty());
        assert(forest_model(s.push(e)) =~= forest_model(s).push(e.model()));
    } else {
        assert(s.push(e).drop_first() =~= s.drop_first().push(e));
        lemma_forest_model_snoc(s.drop_first(), e);
        assert(s.push(e)[0] == s[0]);
        assert(s.push(e).len() > 0);
        assert(forest_model(s.push(e)) == seq![s[0].model()] + forest_model(
            s.drop_first().push(e),
        ));
        assert(forest_model(s.push(e)) =~= forest_model(s).push(e.model()));
    }
}

/// Field-for-field agreement of two nodes, following the tree all the way
/// down.  This is what a clone produces; node identity (`==`) is weaker.
pub open spec fn deep_eq(a: Element, b: Element) -> bool
    decreases a,
{
    &&& a.author == b.author
    &&& a.data == b.data
    &&& a.kind == b.kind
    &&& a.url == b.url
    &&& a.ups == b.ups
    &&& a.depth == b.depth
    &&& a.permalink == b.permalink
    &&& a.id == b.id
    &&& a.parent_id == b.parent_id
    &&& a.over_18 == b.over_18
    &&& a.created == b.created
    &&& a.edited == b.edited
    &&& a.children.len() == b.children.len()
    &&& forall|i: int|
        0 <= i < a.children.len() ==> deep_eq(#[trigger] a.children[i], b.children[i])
}

impl Clone for Element {
    fn clone(&self) -> (res: Self)
        ensures
            deep_eq(*self, res),
        decreases *self,
    {
        let mut children: Vec<Element> = Vec::new();
        let mut i: usize = 0;
        while i < self.children.len()
            invariant
                i <= self.children.len(),
                children@.len() == i as int,
                forall|j: int| 0 <= j < i ==> deep_eq(#[trigger] self.children[j], children[j]),
            decreases self.children.len() - i,
        {
            children.push(self.children[i].clone());
            i = i + 1;
        }
        Element {
            author: self.author.clone(),
            data: self.data.clone(),
            kind: self.kind.clone(),
            url: self.url.clone(),
            ups: self.ups,
            children,
            depth: self.depth.clone(),
            permalink: self.permalink.clone(),
            id: self.id.clone(),
            parent_id: self.parent_id.clone(),
            over_18: self.over_18,
            created: self.created,
            edited: self.edited,
        }
    }
}

impl Default for Element {
    /// The all-empty node: blank strings, no children, zero counters.
    fn default() -> (r: Element)
        ensures
            r.author@ == Seq::<char>::empty(),
            r.data@ == Seq::<char>::empty(),
            r.kind@ == Seq::<char>::empty(),
            r.url@ == Seq::<char>::empty(),
            r.ups == 0usize,
            r.children@ == Seq::<Element>::empty(),
            r.depth@ == Seq::<char>::empty(),
            r.permalink@ == Seq::<char>::empty(),
            r.id@ == Seq::<char>::empty(),
            r.parent_id@ == Seq::<char>::empty(),
            r.over_18 == false,
            r.created == 0usize,
            r.edited == 0usize,
    {
        Element {
            author: String::new(),
            data: String::new(),
            kind: String::new(),
            url: String::new(),
            ups: 0,
            children: Vec::new(),
            depth: String::new(),
            permalink: String::new(),
            id: String::new(),
            parent_id: String::new(),
            over_18: false,
            created: 0,
            edited: 0,
        }
    }
}

/// Two nodes are the same node exactly when their ids agree: content may
/// legitimately repeat, the id is unique across the whole discussion.
impl PartialEq for Element {
    fn eq(&self, other: &Self) -> (r: bool) {
        self.id == other.id
    }
}

impl vstd::std_specs::cmp::PartialEqSpecImpl for Element {
    open spec fn obeys_eq_spec() -> bool {
        true
    }

    open spec fn eq_spec(&self, other: &Element) -> bool {
        self.id@ == other.id@
    }
}

/// Identity of nodes is decided by the id alone: equal ids make equal
/// nodes whatever the rest of their content, and distinct ids make
/// distinct nodes even when all content agrees.
pub proof fn lemma_node_identity(a: Element, b: Element)
    ensures
        a.eq_spec(&b) <==> a.id@ == b.id@,
{
}

} // verus!
