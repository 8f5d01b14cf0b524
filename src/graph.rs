use vstd::prelude::*;
use crate::codec::{
    index_is_ancestor, index_is_direct_parent, is_ancestor, is_direct_parent, parent_of, segments,
};
use crate::contents::{
    ContentModel, NodeContents, contents_wire, contents_from_wire, str_of, lemma_contents_round_trip,
};
use crate::json::{
    Json, JsonModel, json_views, member_views, member_pos, lemma_object_view, lemma_array_view,
    lemma_member_pos_range,
};
use crate::error::UrbitAPIError;
use crate::text::clone_strings;
use crate::rebuild::{canonical, canonical_seq, lemma_attach_canonical};
use crate::codec::is_ancestor as index_ancestor;

verus! {

/// A node of a graph: a post and the nodes below it, each owned by its parent.
#[derive(Debug)]
pub struct Node {
    pub index: String,
    pub author: String,
    pub time_sent: u64,
    pub signatures: Vec<String>,
    pub contents: NodeContents,
    pub hash: Option<String>,
    pub children: Vec<Node>,
}

/// The mathematical value of a `Node`.
pub struct NodeView {
    pub index: Seq<char>,
    pub author: Seq<char>,
    pub time_sent: u64,
    pub signatures: Seq<Seq<char>>,
    pub contents: Seq<ContentModel>,
    pub hash: Option<Seq<char>>,
    pub children: Seq<NodeView>,
}

/// The view of an optional string.
pub open spec fn opt_view(s: Option<String>) -> Option<Seq<char>> {
    match s {
        Some(x) => Some(x@),
        None => None,
    }
}

/// The mathematical value of a `Node`.
pub open spec fn node_view(n: Node) -> NodeView
    decreases n,
{
    NodeView {
        index: n.index@,
        author: n.author@,
        time_sent: n.time_sent,
        signatures: n.signatures@.map_values(|s: String| s@),
        contents: n.contents@,
        hash: opt_view(n.hash),
        children: Seq::new(
            n.children@.len(),
            |i: int|
                if 0 <= i < n.children@.len() {
                    node_view(n.children@[i])
                } else {
                    NodeView {
                        index: Seq::empty(),
                        author: Seq::empty(),
                        time_sent: 0,
                        signatures: Seq::empty(),
                        contents: Seq::empty(),
                        hash: None,
                        children: Seq::empty(),
                    }
                },
        ),
    }
}

impl View for Node {
    type V = NodeView;

    open spec fn view(&self) -> NodeView {
        node_view(*self)
    }
}

/// The views of a list of nodes.
pub open spec fn node_views(v: Seq<Node>) -> Seq<NodeView> {
    v.map_values(|n: Node| n@)
}

pub proof fn lemma_node_view(n: &Node)
    ensures
        n@.index == n.index@,
        n@.author == n.author@,
        n@.time_sent == n.time_sent,
        n@.signatures == n.signatures@.map_values(|s: String| s@),
        n@.contents == n.contents@,
        n@.hash == opt_view(n.hash),
        n@.children == node_views(n.children@),
{
    assert(n@.children =~= node_views(n.children@));
}

/// Position of the first node of `cs` whose index is an ancestor of `idx`, or -1.
pub open spec fn first_ancestor(cs: Seq<NodeView>, idx: Seq<char>) -> int
    decreases cs.len(),
{
    if cs.len() == 0 {
        -1
    } else if first_ancestor(cs.drop_last(), idx) >= 0 {
        first_ancestor(cs.drop_last(), idx)
    } else if is_ancestor(cs.last().index, idx) {
        cs.len() - 1
    } else {
        -1
    }
}

/// `n` with its children replaced.
pub open spec fn with_children(n: NodeView, cs: Seq<NodeView>) -> NodeView {
    NodeView { children: cs, ..n }
}

/// Where `attach` places `new` below `n`: under the first child that is its
/// direct parent, or deeper inside the first child that is its ancestor; under
/// `n` itself where no child is an ancestor and `n` is the direct parent;
/// `None` otherwise.
pub open spec fn attach_spec(n: NodeView, new: NodeView) -> Option<NodeView>
    decreases n,
{
    let k = first_ancestor(n.children, new.index);
    if 0 <= k < n.children.len() {
        let c = n.children[k];
        if is_direct_parent(c.index, new.index) {
            Some(with_children(n, n.children.update(k, with_children(c, c.children.push(new)))))
        } else {
            match attach_spec(c, new) {
                Some(c2) => Some(with_children(n, n.children.update(k, c2))),
                None => None,
            }
        }
    } else if is_direct_parent(n.index, new.index) {
        Some(with_children(n, n.children.push(new)))
    } else {
        None
    }
}

pub proof fn lemma_first_ancestor(cs: Seq<NodeView>, idx: Seq<char>)
    ensures
        -1 <= first_ancestor(cs, idx) < cs.len(),
        first_ancestor(cs, idx) >= 0 ==> is_ancestor(cs[first_ancestor(cs, idx)].index, idx),
        forall|j: int|
            0 <= j < cs.len() && (first_ancestor(cs, idx) == -1 || j < first_ancestor(cs, idx))
                ==> !is_ancestor(#[trigger] cs[j].index, idx),
    decreases cs.len(),
{
    if cs.len() > 0 {
        lemma_first_ancestor(cs.drop_last(), idx);
        assert forall|j: int| 0 <= j < cs.len() - 1 implies cs.drop_last()[j] == cs[j] by {}
    }
}

impl Node {
    /// A node without children.
    pub fn new(
        index: String,
        author: String,
        time_sent: u64,
        signatures: Vec<String>,
        contents: NodeContents,
        hash: Option<String>,
    ) -> (r: Node)
        ensures
            r@ == (NodeView {
                index: index@,
                author: author@,
                time_sent,
                signatures: signatures@.map_values(|s: String| s@),
                contents: contents@,
                hash: opt_view(hash),
                children: Seq::empty(),
            }),
            canonical(r@),
    {
        let r = Node { index, author, time_sent, signatures, contents, hash, children: Vec::new() };
        proof {
            lemma_node_view(&r);
            assert(r@.children =~= Seq::<NodeView>::empty());
            assert(canonical_seq(r@.children));
        }
        r
    }

    /// A copy of this node and everything below it.
    pub fn copy(&self) -> (r: Node)
        ensures
            r@ == self@,
        decreases self,
    {
        let mut children: Vec<Node> = Vec::new();
        let mut i: usize = 0;
        while i < self.children.len()
            invariant
                i <= self.children@.len(),
                children@.len() == i,
                forall|j: int| 0 <= j < i ==> #[trigger] children@[j]@ == self.children@[j]@,
            decreases self.children@.len() - i,
        {
            assert(decreases_to!(self => self.children@[i as int]));
            let c = self.children[i].copy();
            children.push(c);
            i = i + 1;
        }
        let hash = match &self.hash {
            Some(h) => Some(h.clone()),
            None => None,
        };
        let r = Node {
            index: self.index.clone(),
            author: self.author.clone(),
            time_sent: self.time_sent,
            signatures: clone_strings(&self.signatures),
            contents: self.contents.copy(),
            hash,
            children,
        };
        proof {
            lemma_node_view(&r);
            lemma_node_view(self);
            assert(node_views(r.children@) =~= node_views(self.children@));
        }
        r
    }

    /// The last segment of this node's index.
    pub fn index_tail(&self) -> (r: String)
        ensures
            r@ == segments(self.index@).last(),
    {
        crate::codec::index_tail(self.index.as_str())
    }

    /// The index of this node's parent, `None` for a top-level node.
    pub fn parent_index(&self) -> (r: Option<String>)
        ensures
            match r {
                Some(p) => parent_of(self.index@) == Some(p@),
                None => parent_of(self.index@) is None,
            },
    {
        crate::codec::parent_index(self.index.as_str())
    }

    /// Whether this node is the direct parent of `potential_child`.
    pub fn is_direct_parent(&self, potential_child: &Node) -> (r: bool)
        ensures
            r == is_direct_parent(self.index@, potential_child.index@),
    {
        index_is_direct_parent(self.index.as_str(), potential_child.index.as_str())
    }

    /// Whether this node is an ancestor, direct or not, of `potential_child`.
    pub fn is_parent(&self, potential_child: &Node) -> (r: bool)
        ensures
            r == is_ancestor(self.index@, potential_child.index@),
    {
        index_is_ancestor(self.index.as_str(), potential_child.index.as_str())
    }

    /// Places `new_node` at the deepest place below this node where it
    /// belongs; returns false, and leaves the node as it was, where there is
    /// none.
    pub fn attach(&mut self, new_node: Node) -> (r: bool)
        ensures
            r == attach_spec(old(self)@, new_node@) is Some,
            r ==> final(self)@ == attach_spec(old(self)@, new_node@)->0,
            !r ==> final(self)@ == old(self)@,
            canonical(old(self)@) && new_node@.children.len() == 0 ==> canonical(final(self)@),
        decreases *old(self),
    {
        proof {
            if canonical(self@) && new_node@.children.len() == 0 && attach_spec(self@, new_node@) is Some {
                lemma_attach_canonical(self@, new_node@);
            }
        }
        proof {
            lemma_node_view(self);
            lemma_first_ancestor(self@.children, new_node.index@);
        }
        let ghost n = self@;
        let mut k: usize = 0;
        let mut found = false;
        while k < self.children.len() && !found
            invariant
                n == self@,
                n.children == node_views(self.children@),
                k <= self.children@.len(),
                found ==> k < self.children@.len() && is_ancestor(
                    n.children[k as int].index,
                    new_node.index@,
                ),
                forall|j: int| 0 <= j < k ==> !is_ancestor(#[trigger] n.children[j].index, new_node.index@),
            decreases self.children@.len() - k + (if found { 0int } else { 1int }),
        {
            proof {
                lemma_node_view(&self.children@[k as int]);
            }
            if index_is_ancestor(self.children[k].index.as_str(), new_node.index.as_str()) {
                found = true;
            } else {
                k = k + 1;
            }
        }
        if found {
            proof {
                lemma_node_view(&self.children@[k as int]);
                assert(first_ancestor(n.children, new_node.index@) == k as int);
            }
            if index_is_direct_parent(self.children[k].index.as_str(), new_node.index.as_str()) {
                let ghost c = self.children@[k as int];
                let ghost nv = new_node@;
                self.children[k].children.push(new_node);
                proof {
                    let c2 = self.children@[k as int];
                    lemma_node_view(&c2);
                    lemma_node_view(self);
                    assert(node_views(c2.children@) =~= node_views(c.children@).push(nv));
                    assert(node_views(self.children@) =~= n.children.update(
                        k as int,
                        with_children(c@, c@.children.push(nv)),
                    ));
                }
                true
            } else {
                let ghost c = self.children@[k as int];
                assert(decreases_to!(*old(self) => old(self).children@[k as int]));
                let ok = self.children[k].attach(new_node);
                proof {
                    lemma_node_view(self);
                    if ok {
                        assert(node_views(self.children@) =~= n.children.update(
                            k as int,
                            self.children@[k as int]@,
                        ));
                    } else {
                        assert(node_views(self.children@) =~= n.children);
                    }
                }
                ok
            }
        } else {
            proof {
                assert(first_ancestor(n.children, new_node.index@) == -1);
            }
            if index_is_direct_parent(self.index.as_str(), new_node.index.as_str()) {
                let ghost nv = new_node@;
                self.children.push(new_node);
                proof {
                    lemma_node_view(self);
                    assert(node_views(self.children@) =~= n.children.push(nv));
                }
                true
            } else {
                false
            }
        }
    }

    /// This node with `new_child` placed as `attach` places it; `None` where
    /// it belongs nowhere below this node.
    pub fn add_child(&self, new_child: &Node) -> (r: Option<Node>)
        ensures
            match r {
                Some(n) => attach_spec(self@, new_child@) == Some(n@),
                None => attach_spec(self@, new_child@) is None,
            },
    {
        let mut n = self.copy();
        if n.attach(new_child.copy()) {
            Some(n)
        } else {
            None
        }
    }
}

/// The wire form of a list of strings: an array of strings.
pub open spec fn strings_wire(v: Seq<Seq<char>>) -> Seq<JsonModel> {
    v.map_values(|s: Seq<char>| JsonModel::Str(s))
}

/// The strings that a list of wire values holds, `None` if one is no string.
pub open spec fn strings_from_wire(items: Seq<JsonModel>) -> Option<Seq<Seq<char>>>
    decreases items.len(),
{
    if items.len() == 0 {
        Some(Seq::empty())
    } else {
        match (strings_from_wire(items.drop_last()), items.last()) {
            (Some(r), JsonModel::Str(s)) => Some(r.push(s)),
            _ => None,
        }
    }
}

/// The wire form of a node's post: its own fields, without children.
pub open spec fn post_wire(v: NodeView) -> JsonModel {
    JsonModel::Object(
        seq![
            ("author"@, JsonModel::Str(v.author)),
            ("index"@, JsonModel::Str(v.index)),
            ("time-sent"@, JsonModel::Number(true, v.time_sent, 0)),
            ("contents"@, JsonModel::Array(contents_wire(v.contents))),
            ("hash"@, match v.hash {
                Some(h) => JsonModel::Str(h),
                None => JsonModel::Null,
            }),
            ("signatures"@, JsonModel::Array(strings_wire(v.signatures))),
        ],
    )
}

/// The wire form of a node: `{"post": .., "children": {tail: child, ..}}`,
/// each child keyed by the last segment of its index.
pub open spec fn node_wire(v: NodeView) -> JsonModel
    decreases v,
{
    JsonModel::Object(
        seq![
            ("post"@, post_wire(v)),
            ("children"@, JsonModel::Object(children_wire(v.children))),
        ],
    )
}

/// The wire form of a list of children, as `node_wire` writes it.
pub open spec fn children_wire(cs: Seq<NodeView>) -> Seq<(Seq<char>, JsonModel)>
    decreases cs,
{
    Seq::new(
        cs.len(),
        |i: int|
            if 0 <= i < cs.len() {
                (segments(cs[i].index).last(), node_wire(cs[i]))
            } else {
                (Seq::empty(), JsonModel::Null)
            },
    )
}

/// The optional hash that a wire value holds: `null` or a string.
pub open spec fn hash_from_wire(v: Option<JsonModel>) -> Option<Option<Seq<char>>> {
    match v {
        Some(JsonModel::Null) => Some(None),
        Some(JsonModel::Str(h)) => Some(Some(h)),
        _ => None,
    }
}

/// The elements of an array value.
pub open spec fn array_of(v: Option<JsonModel>) -> Option<Seq<JsonModel>> {
    match v {
        Some(JsonModel::Array(a)) => Some(a),
        _ => None,
    }
}

/// The childless node that a post describes; `None` where a field is absent
/// or of the wrong type.
pub open spec fn post_from_wire(p: JsonModel) -> Option<NodeView> {
    let index = str_of(p.field("index"@));
    let author = str_of(p.field("author"@));
    let time = match p.field("time-sent"@) {
        Some(t) => t.as_u64(),
        None => None,
    };
    let hash = hash_from_wire(p.field("hash"@));
    let contents = match array_of(p.field("contents"@)) {
        Some(a) => contents_from_wire(a),
        None => None,
    };
    let signatures = match array_of(p.field("signatures"@)) {
        Some(a) => strings_from_wire(a),
        None => None,
    };
    if index is Some && author is Some && time is Some && hash is Some && contents is Some
        && signatures is Some {
        Some(
            NodeView {
                index: index->0,
                author: author->0,
                time_sent: time->0,
                signatures: signatures->0,
                contents: contents->0,
                hash: hash->0,
                children: Seq::empty(),
            },
        )
    } else {
        None
    }
}

/// The node that a wire value describes, with the children that parse.
pub open spec fn node_from_wire(j: JsonModel) -> Option<NodeView>
    decreases j,
{
    match j {
        JsonModel::Object(m) => {
            let pp = member_pos(m, "post"@);
            if 0 <= pp < m.len() {
                match post_from_wire(m[pp].1) {
                    Some(base) => {
                        let cp = member_pos(m, "children"@);
                        if 0 <= cp < m.len() {
                            match m[cp].1 {
                                JsonModel::Object(cm) => Some(
                                    with_children(base, children_from_wire(cm)),
                                ),
                                _ => Some(base),
                            }
                        } else {
                            Some(base)
                        }
                    },
                    None => None,
                }
            } else {
                None
            }
        },
        _ => None,
    }
}

/// The nodes that the members of a children object describe, in order,
/// leaving out those that do not parse.
pub open spec fn children_from_wire(cm: Seq<(Seq<char>, JsonModel)>) -> Seq<NodeView>
    decreases cm,
{
    if cm.len() == 0 {
        Seq::empty()
    } else {
        let rest = children_from_wire(cm.subrange(0, cm.len() - 1));
        match node_from_wire(cm[cm.len() - 1].1) {
            Some(c) => rest.push(c),
            None => rest,
        }
    }
}

/// Reads the strings of a wire array.
fn strings_from_json(items: &Vec<Json>) -> (r: Option<Vec<String>>)
    ensures
        match r {
            Some(v) => strings_from_wire(json_views(items@)) == Some(v@.map_values(|s: String| s@)),
            None => strings_from_wire(json_views(items@)) is None,
        },
{
    let ghost js = json_views(items@);
    let mut v: Vec<String> = Vec::new();
    let mut i: usize = 0;
    assert(js.subrange(0, 0) =~= Seq::<JsonModel>::empty());
    assert(v@.map_values(|s: String| s@) =~= Seq::<Seq<char>>::empty());
    while i < items.len()
        invariant
            js == json_views(items@),
            i <= items@.len(),
            v@.len() == i,
            strings_from_wire(js.subrange(0, i as int)) == Some(v@.map_values(|s: String| s@)),
        decreases items@.len() - i,
    {
        let ghost next = js.subrange(0, i as int + 1);
        assert(next.drop_last() =~= js.subrange(0, i as int));
        assert(next.last() == items@[i as int]@);
        match &items[i] {
            Json::Str(s) => {
                let ghost before = v@;
                v.push(s.clone());
                assert(v@.map_values(|s: String| s@) =~= before.map_values(|s: String| s@).push(s@));
            },
            _ => {
                proof {
                    lemma_strings_prefix_none(js, i as int + 1);
                }
                return None;
            },
        }
        i = i + 1;
    }
    assert(js.subrange(0, i as int) =~= js);
    Some(v)
}

proof fn lemma_strings_prefix_none(items: Seq<JsonModel>, k: int)
    requires
        0 < k <= items.len(),
        !(items[k - 1] is Str),
    ensures
        strings_from_wire(items) is None,
    decreases items.len(),
{
    if k < items.len() {
        lemma_strings_prefix_none(items.drop_last(), k);
    }
}

/// Writes a list of strings as a wire array.
fn strings_to_json(v: &Vec<String>) -> (r: Json)
    ensures
        r@ == JsonModel::Array(strings_wire(v@.map_values(|s: String| s@))),
{
    let mut out: Vec<Json> = Vec::new();
    let mut i: usize = 0;
    while i < v.len()
        invariant
            i <= v@.len(),
            out@.len() == i,
            forall|j: int| 0 <= j < i ==> #[trigger] out@[j]@ == JsonModel::Str(v@[j]@),
        decreases v@.len() - i,
    {
        out.push(Json::Str(v[i].clone()));
        i = i + 1;
    }
    let r = Json::Array(out);
    proof {
        lemma_array_view(&r);
        assert(r@->Array_0 =~= strings_wire(v@.map_values(|s: String| s@)));
    }
    r
}

proof fn lemma_strings_round_trip(ss: Seq<Seq<char>>)
    ensures
        strings_from_wire(strings_wire(ss)) == Some(ss),
    decreases ss.len(),
{
    if ss.len() > 0 {
        lemma_strings_round_trip(ss.drop_last());
        assert(strings_wire(ss).drop_last() =~= strings_wire(ss.drop_last()));
        assert(ss.drop_last().push(ss.last()) =~= ss);
    } else {
        assert(strings_wire(ss) =~= Seq::<JsonModel>::empty());
    }
}

pub proof fn lemma_post_round_trip(v: NodeView)
    ensures
        post_from_wire(post_wire(v)) == Some(with_children(v, Seq::empty())),
{
    reveal_strlit("author");
    reveal_strlit("index");
    reveal_strlit("time-sent");
    reveal_strlit("contents");
    reveal_strlit("hash");
    reveal_strlit("signatures");
    reveal_with_fuel(member_pos, 7);
    assert("author"@[0] == 'a' && "index"@[0] == 'i' && "time-sent"@[0] == 't');
    assert("contents"@[0] == 'c' && "hash"@[0] == 'h' && "signatures"@[0] == 's');
    lemma_contents_round_trip(v.contents);
    lemma_strings_round_trip(v.signatures);
    let m = post_wire(v)->Object_0;
    assert(m.drop_last().drop_last().drop_last().drop_last().drop_last().drop_last()
        =~= Seq::<(Seq<char>, JsonModel)>::empty());
}

proof fn lemma_children_round_trip(cs: Seq<NodeView>, k: int)
    requires
        0 <= k <= cs.len(),
    ensures
        children_from_wire(children_wire(cs).subrange(0, k)) == cs.subrange(0, k),
    decreases cs, k,
{
    let cm = children_wire(cs).subrange(0, k);
    if k > 0 {
        lemma_children_round_trip(cs, k - 1);
        assert(decreases_to!(cs => cs[k - 1]));
        lemma_wire_round_trip(cs[k - 1]);
        assert(cm.subrange(0, k - 1) =~= children_wire(cs).subrange(0, k - 1));
        assert(cm[k - 1].1 == node_wire(cs[k - 1]));
        assert(cs.subrange(0, k - 1).push(cs[k - 1]) =~= cs.subrange(0, k));
    } else {
        assert(cs.subrange(0, k) =~= Seq::<NodeView>::empty());
    }
}

/// Reading a node back from the wire form that `to_json_value` writes gives
/// the node itself, at any depth and with any mix of contents.
pub proof fn lemma_wire_round_trip(v: NodeView)
    ensures
        node_from_wire(node_wire(v)) == Some(v),
    decreases v, 0int,
{
    reveal_strlit("post");
    reveal_strlit("children");
    reveal_with_fuel(member_pos, 3);
    assert("post"@[0] == 'p' && "children"@[0] == 'c');
    let m = node_wire(v)->Object_0;
    assert(m.drop_last().drop_last() =~= Seq::<(Seq<char>, JsonModel)>::empty());
    lemma_post_round_trip(v);
    assert(m[1].1 == JsonModel::Object(children_wire(v.children)));
    lemma_children_round_trip(v.children, v.children.len() as int);
    assert(children_wire(v.children).subrange(0, v.children.len() as int) =~= children_wire(v.children));
    assert(v.children.subrange(0, v.children.len() as int) =~= v.children);
}

impl Node {
    /// The wire form of this node's post.
    fn post_to_json(&self) -> (r: Json)
        ensures
            r@ == post_wire(self@),
    {
        proof {
            lemma_node_view(self);
        }
        let hash = match &self.hash {
            Some(h) => Json::Str(h.clone()),
            None => Json::Null,
        };
        let r = Json::Object(
            vec![
                ("author".to_owned(), Json::Str(self.author.clone())),
                ("index".to_owned(), Json::Str(self.index.clone())),
                ("time-sent".to_owned(), Json::from_u64(self.time_sent)),
                ("contents".to_owned(), self.contents.to_json()),
                ("hash".to_owned(), hash),
                ("signatures".to_owned(), strings_to_json(&self.signatures)),
            ],
        );
        proof {
            lemma_object_view(&r);
            assert(r@->Object_0 =~= post_wire(self@)->Object_0);
        }
        r
    }

    /// The wire form of this node and everything below it.
    pub fn to_json_value(&self) -> (r: Json)
        ensures
            r@ == node_wire(self@),
        decreases self,
    {
        proof {
            lemma_node_view(self);
        }
        let mut kids: Vec<(String, Json)> = Vec::new();
        let mut i: usize = 0;
        while i < self.children.len()
            invariant
                i <= self.children@.len(),
                kids@.len() == i,
                forall|j: int|
                    0 <= j < i ==> #[trigger] member_views(kids@)[j] == (
                        segments(self.children@[j]@.index).last(),
                        node_wire(self.children@[j]@),
                    ),
            decreases self.children@.len() - i,
        {
            assert(decreases_to!(self => self.children@[i as int]));
            proof {
                lemma_node_view(&self.children@[i as int]);
            }
            let tail = self.children[i].index_tail();
            let value = self.children[i].to_json_value();
            let ghost before = kids@;
            let ghost entry = (tail@, value@);
            kids.push((tail, value));
            assert(member_views(kids@) =~= member_views(before).push(entry));
            i = i + 1;
        }
        let children = Json::Object(kids);
        proof {
            lemma_object_view(&children);
        }
        let r = Json::Object(vec![("post".to_owned(), self.post_to_json()), ("children".to_owned(), children)]);
        proof {
            lemma_object_view(&r);
            let cs = self@.children;
            assert(children@->Object_0 =~= node_wire(self@)->Object_0[1].1->Object_0);
            assert(r@->Object_0 =~= node_wire(self@)->Object_0);
        }
        r
    }

    /// The wire form keyed by the node's full index: `{index: node}`.
    pub fn to_json(&self) -> (r: Json)
        ensures
            r@ == JsonModel::Object(seq![(self.index@, node_wire(self@))]),
    {
        let r = Json::Object(vec![(self.index.clone(), self.to_json_value())]);
        proof {
            lemma_object_view(&r);
            assert(r@->Object_0 =~= seq![(self.index@, node_wire(self@))]);
        }
        r
    }

    /// The childless node that a post describes.
    fn post_from_json(p: &Json) -> (r: Option<Node>)
        ensures
            match r {
                Some(n) => post_from_wire(p@) == Some(n@),
                None => post_from_wire(p@) is None,
            },
    {
        let index = match p.get("index") {
            Some(Json::Str(s)) => s.clone(),
            _ => {
                return None;
            },
        };
        let author = match p.get("author") {
            Some(Json::Str(s)) => s.clone(),
            _ => {
                return None;
            },
        };
        let time_sent = match p.get("time-sent") {
            Some(t) => match t.as_u64() {
                Some(t) => t,
                None => {
                    return None;
                },
            },
            None => {
                return None;
            },
        };
        let hash = match p.get("hash") {
            Some(Json::Null) => None,
            Some(Json::Str(h)) => Some(h.clone()),
            _ => {
                return None;
            },
        };
        let contents = match p.get("contents") {
            Some(cj) => match cj {
                Json::Array(a) => {
                    proof {
                        lemma_array_view(cj);
                    }
                    match NodeContents::from_json(a) {
                        Some(c) => c,
                        None => {
                            return None;
                        },
                    }
                },
                _ => {
                    return None;
                },
            },
            None => {
                return None;
            },
        };
        let signatures = match p.get("signatures") {
            Some(cj) => match cj {
                Json::Array(a) => {
                    proof {
                        lemma_array_view(cj);
                    }
                    match strings_from_json(a) {
                        Some(v) => v,
                        None => {
                            return None;
                        },
                    }
                },
                _ => {
                    return None;
                },
            },
            None => {
                return None;
            },
        };
        Some(Node::new(index, author, time_sent, signatures, contents, hash))
    }

    /// The nodes that the members of a children object describe, leaving out
    /// those that do not parse.
    fn children_from_json(cm: &Vec<(String, Json)>) -> (r: Vec<Node>)
        ensures
            node_views(r@) == children_from_wire(member_views(cm@)),
        decreases cm,
    {
        let ghost ms = member_views(cm@);
        let mut v: Vec<Node> = Vec::new();
        let mut i: usize = 0;
        assert(ms.subrange(0, 0) =~= Seq::<(Seq<char>, JsonModel)>::empty());
        assert(node_views(v@) =~= Seq::<NodeView>::empty());
        while i < cm.len()
            invariant
                ms == member_views(cm@),
                i <= cm@.len(),
                node_views(v@) == children_from_wire(ms.subrange(0, i as int)),
            decreases cm@.len() - i,
        {
            let ghost next = ms.subrange(0, i as int + 1);
            assert(next.subrange(0, next.len() - 1) =~= ms.subrange(0, i as int));
            assert(next[next.len() - 1].1 == cm@[i as int].1@);
            assert(decreases_to!(cm => cm@[i as int].1));
            let ghost before = v@;
            match Node::from_json(&cm[i].1) {
                Ok(n) => {
                    let ghost nv = n@;
                    v.push(n);
                    assert(v@ == before.push(v@[before.len() as int]));
                    assert(node_views(v@) =~= node_views(before).push(nv));
                },
                Err(_) => {},
            }
            i = i + 1;
        }
        assert(ms.subrange(0, i as int) =~= ms);
        v
    }

    /// The node that a wire value `{"post": .., "children": ..}` describes,
    /// with those of its children that parse.
    pub fn from_json(json: &Json) -> (r: Result<Node, UrbitAPIError>)
        ensures
            match r {
                Ok(n) => node_from_wire(json@) == Some(n@),
                Err(e) => node_from_wire(json@) is None && e
                    == UrbitAPIError::FailedToCreateGraphNodeFromJSON,
            },
        decreases json,
    {
        let m = match json {
            Json::Object(m) => m,
            _ => {
                return Err(UrbitAPIError::FailedToCreateGraphNodeFromJSON);
            },
        };
        proof {
            lemma_object_view(json);
            lemma_member_pos_range(json@->Object_0, "post"@);
            lemma_member_pos_range(json@->Object_0, "children"@);
        }
        let pp = match json.member_index("post") {
            Some(pp) => pp,
            None => {
                return Err(UrbitAPIError::FailedToCreateGraphNodeFromJSON);
            },
        };
        let mut base = match Node::post_from_json(&m[pp].1) {
            Some(b) => b,
            None => {
                return Err(UrbitAPIError::FailedToCreateGraphNodeFromJSON);
            },
        };
        proof {
            lemma_node_view(&base);
        }
        match json.member_index("children") {
            Some(cp) => {
                match &m[cp].1 {
                    Json::Object(cm) => {
                        assert(decreases_to!(json => cm));
                        let kids = Node::children_from_json(cm);
                        proof {
                            lemma_object_view(&m[cp as int].1);
                        }
                        base.children = kids;
                        proof {
                            lemma_node_view(&base);
                        }
                    },
                    _ => {},
                }
            },
            None => {},
        }
        Ok(base)
    }
}

/// The value found by following `keys` from `j`, member by member.
pub open spec fn at_path(j: JsonModel, keys: Seq<Seq<char>>) -> Option<JsonModel>
    decreases keys.len(),
{
    if keys.len() == 0 {
        Some(j)
    } else {
        match at_path(j, keys.drop_last()) {
            Some(x) => x.field(keys.last()),
            None => None,
        }
    }
}

/// The childless nodes of a fragment and of the fragments nested in its
/// children, in document order; `None` where one of them does not parse.
pub open spec fn fragment_nodes(f: JsonModel) -> Option<Seq<NodeView>>
    decreases f,
{
    match f {
        JsonModel::Object(fm) => {
            let pp = member_pos(fm, "post"@);
            if 0 <= pp < fm.len() {
                match post_from_wire(fm[pp].1) {
                    Some(n) => {
                        let cp = member_pos(fm, "children"@);
                        if 0 <= cp < fm.len() {
                            match fm[cp].1 {
                                JsonModel::Object(cm) => match members_nodes(cm) {
                                    Some(r) => Some(seq![n] + r),
                                    None => None,
                                },
                                _ => Some(seq![n]),
                            }
                        } else {
                            Some(seq![n])
                        }
                    },
                    None => None,
                }
            } else {
                None
            }
        },
        _ => None,
    }
}

/// The childless nodes of the fragments that an object keyed by index holds,
/// in document order.
pub open spec fn members_nodes(m: Seq<(Seq<char>, JsonModel)>) -> Option<Seq<NodeView>>
    decreases m,
{
    if m.len() == 0 {
        Some(Seq::empty())
    } else {
        match (members_nodes(m.subrange(0, m.len() - 1)), fragment_nodes(m[m.len() - 1].1)) {
            (Some(a), Some(b)) => Some(a + b),
            _ => None,
        }
    }
}

/// The childless nodes of a graph payload: an object keyed by index, or an
/// array of such objects.
pub open spec fn payload_nodes(p: JsonModel) -> Option<Seq<NodeView>> {
    match p {
        JsonModel::Object(m) => members_nodes(m),
        JsonModel::Array(a) => array_nodes(a),
        _ => Some(Seq::empty()),
    }
}

/// The childless nodes of an array of objects keyed by index.
pub open spec fn array_nodes(a: Seq<JsonModel>) -> Option<Seq<NodeView>>
    decreases a.len(),
{
    if a.len() == 0 {
        Some(Seq::empty())
    } else {
        let last = match a.last() {
            JsonModel::Object(m) => members_nodes(m),
            _ => Some(Seq::empty()),
        };
        match (array_nodes(a.drop_last()), last) {
            (Some(x), Some(y)) => Some(x + y),
            _ => None,
        }
    }
}

/// The graph part of a full-graph payload: `graph-update.add-graph.graph`,
/// or `graph-update.add-nodes.nodes` where that is absent or null.
pub open spec fn graph_part(j: JsonModel) -> Option<JsonModel> {
    let g = at_path(j, seq!["graph-update"@, "add-graph"@, "graph"@]);
    if g is Some && !(g->0 is Null) {
        g
    } else {
        at_path(j, seq!["graph-update"@, "add-nodes"@, "nodes"@])
    }
}

/// The fragments of a full-graph payload, `None` where one does not parse.
pub open spec fn graph_fragments(j: JsonModel) -> Option<Seq<NodeView>> {
    match graph_part(j) {
        Some(p) => payload_nodes(p),
        None => Some(Seq::empty()),
    }
}

/// The left fold over fragments: the finished top-level nodes and the node
/// being built. A fragment goes below the node being built when that node is
/// its ancestor and `attach` finds it a place; otherwise the node being built
/// is finished and the fragment starts the next one.
pub open spec fn fold_tree(frags: Seq<NodeView>) -> (Seq<NodeView>, NodeView)
    recommends
        frags.len() >= 1,
    decreases frags.len(),
{
    if frags.len() <= 1 {
        (Seq::empty(), frags[0])
    } else {
        let prev = fold_tree(frags.drop_last());
        let f = frags.last();
        if index_ancestor(prev.1.index, f.index) && attach_spec(prev.1, f) is Some {
            (prev.0, attach_spec(prev.1, f)->0)
        } else {
            (prev.0.push(prev.1), f)
        }
    }
}

/// The top-level nodes that the fold builds from a non-empty list of fragments.
pub open spec fn build_tree(frags: Seq<NodeView>) -> Seq<NodeView> {
    if frags.len() == 0 {
        Seq::empty()
    } else {
        fold_tree(frags).0.push(fold_tree(frags).1)
    }
}

/// The node of a single-node update: the one member of
/// `graph-update.add-nodes.nodes`.
pub open spec fn update_node(j: JsonModel) -> Option<NodeView> {
    match at_path(j, seq!["graph-update"@, "add-nodes"@, "nodes"@]) {
        Some(JsonModel::Object(m)) => if m.len() == 1 {
            node_from_wire(m[0].1)
        } else {
            None
        },
        _ => None,
    }
}

/// The text that chrono's `DateTime::from_timestamp` and
/// `format("%Y-%m-%d %H:%M:%S")` give for a Unix time in seconds.
pub uninterp spec fn utc_text(secs: int) -> Option<Seq<char>>;

/// Relies on chrono's `DateTime::<Utc>::from_timestamp(secs, 0)`, `None` out
/// of its range, and on `format("%Y-%m-%d %H:%M:%S")` of the result.
#[verifier::external_body]
fn format_utc(secs: i64) -> (r: Option<String>)
    ensures
        match r {
            Some(s) => utc_text(secs as int) == Some(s@),
            None => utc_text(secs as int) is None,
        },
{
    match chrono::DateTime::from_timestamp(secs, 0) {
        Some(d) => Some(d.format("%Y-%m-%d %H:%M:%S").to_string()),
        None => None,
    }
}

/// Follows `keys` from `j`.
fn json_at<'a>(j: &'a Json, k1: &str, k2: &str, k3: &str) -> (r: Option<&'a Json>)
    ensures
        match r {
            Some(v) => at_path(j@, seq![k1@, k2@, k3@]) == Some(v@),
            None => at_path(j@, seq![k1@, k2@, k3@]) is None,
        },
{
    let ghost keys = seq![k1@, k2@, k3@];
    reveal_with_fuel(at_path, 4);
    assert(keys.drop_last().drop_last().drop_last() =~= Seq::<Seq<char>>::empty());
    assert(keys.drop_last().drop_last() =~= seq![k1@]);
    assert(keys.drop_last() =~= seq![k1@, k2@]);
    let a = match j.get(k1) {
        Some(a) => a,
        None => {
            return None;
        },
    };
    let b = match a.get(k2) {
        Some(b) => b,
        None => {
            return None;
        },
    };
    b.get(k3)
}

/// A graph of a resource: its top-level nodes, in order.
#[derive(Debug)]
pub struct Graph {
    pub nodes: Vec<Node>,
}

impl View for Graph {
    type V = Seq<NodeView>;

    open spec fn view(&self) -> Seq<NodeView> {
        node_views(self.nodes@)
    }
}

/// Appends the childless nodes of a fragment and of those nested in it.
fn fragment_nodes_into(f: &Json, out: &mut Vec<Node>) -> (r: bool)
    ensures
        r == fragment_nodes(f@) is Some,
        r ==> node_views(final(out)@) == node_views(old(out)@) + fragment_nodes(f@)->0,
    decreases f,
{
    let fm = match f {
        Json::Object(fm) => fm,
        _ => {
            return false;
        },
    };
    proof {
        lemma_object_view(f);
        lemma_member_pos_range(f@->Object_0, "post"@);
        lemma_member_pos_range(f@->Object_0, "children"@);
    }
    let pp = match f.member_index("post") {
        Some(pp) => pp,
        None => {
            return false;
        },
    };
    let n = match Node::post_from_json(&fm[pp].1) {
        Some(n) => n,
        None => {
            return false;
        },
    };
    let ghost before = node_views(out@);
    let ghost nv = n@;
    out.push(n);
    assert(node_views(out@) =~= before.push(nv));
    match f.member_index("children") {
        Some(cp) => match &fm[cp].1 {
            Json::Object(cm) => {
                assert(decreases_to!(f => cm));
                proof {
                    lemma_object_view(&fm[cp as int].1);
                }
                let ok = members_nodes_into(cm, out);
                proof {
                    if ok {
                        assert(node_views(final(out)@) =~= before + (seq![nv] + members_nodes(
                            member_views(cm@),
                        )->0));
                    }
                }
                ok
            },
            _ => {
                assert(node_views(out@) =~= before + seq![nv]);
                true
            },
        },
        None => {
            assert(node_views(out@) =~= before + seq![nv]);
            true
        },
    }
}

/// Appends the childless nodes of the fragments of an object keyed by index.
fn members_nodes_into(m: &Vec<(String, Json)>, out: &mut Vec<Node>) -> (r: bool)
    ensures
        r == members_nodes(member_views(m@)) is Some,
        r ==> node_views(final(out)@) == node_views(old(out)@) + members_nodes(
            member_views(m@),
        )->0,
    decreases m,
{
    let ghost ms = member_views(m@);
    let ghost start = node_views(out@);
    let mut i: usize = 0;
    assert(ms.subrange(0, 0) =~= Seq::<(Seq<char>, JsonModel)>::empty());
    assert(start + Seq::<NodeView>::empty() =~= start);
    while i < m.len()
        invariant
            ms == member_views(m@),
            i <= m@.len(),
            members_nodes(ms.subrange(0, i as int)) is Some,
            node_views(out@) == start + members_nodes(ms.subrange(0, i as int))->0,
        decreases m@.len() - i,
    {
        let ghost next = ms.subrange(0, i as int + 1);
        assert(next.subrange(0, next.len() - 1) =~= ms.subrange(0, i as int));
        assert(next[next.len() - 1].1 == m@[i as int].1@);
        assert(decreases_to!(m => m@[i as int].1));
        let ghost mid = node_views(out@);
        if !fragment_nodes_into(&m[i].1, out) {
            proof {
                lemma_members_nodes_prefix_none(ms, i as int + 1);
            }
            return false;
        }
        assert(node_views(out@) =~= start + members_nodes(next)->0);
        i = i + 1;
    }
    assert(ms.subrange(0, i as int) =~= ms);
    true
}

proof fn lemma_members_nodes_prefix_none(m: Seq<(Seq<char>, JsonModel)>, k: int)
    requires
        0 < k <= m.len(),
        fragment_nodes(m[k - 1].1) is None,
    ensures
        members_nodes(m) is None,
    decreases m.len(),
{
    if k < m.len() {
        let p = m.subrange(0, m.len() - 1);
        assert(p[k - 1] == m[k - 1]);
        lemma_members_nodes_prefix_none(p, k);
    }
}

proof fn lemma_array_nodes_prefix_none(a: Seq<JsonModel>, k: int)
    requires
        0 < k <= a.len(),
        a[k - 1] is Object,
        members_nodes(a[k - 1]->Object_0) is None,
    ensures
        array_nodes(a) is None,
    decreases a.len(),
{
    if k < a.len() {
        lemma_array_nodes_prefix_none(a.drop_last(), k);
    }
}

/// Appends the childless nodes of a graph payload.
fn payload_nodes_into(p: &Json, out: &mut Vec<Node>) -> (r: bool)
    ensures
        r == payload_nodes(p@) is Some,
        r ==> node_views(final(out)@) == node_views(old(out)@) + payload_nodes(p@)->0,
{
    match p {
        Json::Object(m) => {
            proof {
                lemma_object_view(p);
            }
            members_nodes_into(m, out)
        },
        Json::Array(a) => {
            proof {
                lemma_array_view(p);
            }
            let ghost js = json_views(a@);
            let ghost start = node_views(out@);
            let mut i: usize = 0;
            assert(js.subrange(0, 0) =~= Seq::<JsonModel>::empty());
            assert(start + Seq::<NodeView>::empty() =~= start);
            while i < a.len()
                invariant
                    js == json_views(a@),
                    p@ == JsonModel::Array(js),
                    i <= a@.len(),
                    array_nodes(js.subrange(0, i as int)) is Some,
                    node_views(out@) == start + array_nodes(js.subrange(0, i as int))->0,
                decreases a@.len() - i,
            {
                let ghost next = js.subrange(0, i as int + 1);
                assert(next.drop_last() =~= js.subrange(0, i as int));
                assert(next.last() == a@[i as int]@);
                match &a[i] {
                    Json::Object(m) => {
                        proof {
                            lemma_object_view(&a@[i as int]);
                        }
                        if !members_nodes_into(m, out) {
                            proof {
                                lemma_array_nodes_prefix_none(js, i as int + 1);
                            }
                            return false;
                        }
                        assert(node_views(out@) =~= start + array_nodes(next)->0);
                    },
                    _ => {
                        assert(node_views(out@) =~= start + array_nodes(next)->0);
                    },
                }
                i = i + 1;
            }
            assert(js.subrange(0, i as int) =~= js);
            true
        },
        _ => {
            assert(node_views(out@) =~= node_views(out@) + Seq::<NodeView>::empty());
            true
        },
    }
}

impl Graph {
    /// A graph of the given top-level nodes.
    pub fn new(nodes: Vec<Node>) -> (r: Graph)
        ensures
            r@ == node_views(nodes@),
    {
        Graph { nodes }
    }

    /// Appends a node at the top level.
    pub fn insert(&mut self, node: Node)
        ensures
            final(self)@ == old(self)@.push(node@),
    {
        let ghost before = self@;
        let ghost nv = node@;
        self.nodes.push(node);
        assert(self@ =~= before.push(nv));
    }

    /// Builds the tree that a full-graph payload describes: every fragment,
    /// nested or not, is read as a childless node in document order, and the
    /// nodes are folded into a forest (see `fold_tree`).
    pub fn from_json(graph_json: &Json) -> (r: Result<Graph, UrbitAPIError>)
        ensures
            match r {
                Ok(g) => graph_fragments(graph_json@) is Some && graph_fragments(graph_json@)->0.len()
                    > 0 && g@ == build_tree(graph_fragments(graph_json@)->0),
                Err(e) => (graph_fragments(graph_json@) is None && e
                    == UrbitAPIError::FailedToCreateGraphNodeFromJSON) || (graph_fragments(
                    graph_json@,
                ) == Some(Seq::<NodeView>::empty()) && e
                    == UrbitAPIError::FailedToCreateGraphFromJSON),
            },
    {
        let mut frags: Vec<Node> = Vec::new();
        let first = json_at(graph_json, "graph-update", "add-graph", "graph");
        let part = match first {
            Some(g) => if g.is_null() {
                json_at(graph_json, "graph-update", "add-nodes", "nodes")
            } else {
                Some(g)
            },
            None => json_at(graph_json, "graph-update", "add-nodes", "nodes"),
        };
        assert(node_views(frags@) =~= Seq::<NodeView>::empty());
        match part {
            Some(p) => {
                if !payload_nodes_into(p, &mut frags) {
                    return Err(UrbitAPIError::FailedToCreateGraphNodeFromJSON);
                }
                assert(node_views(frags@) =~= payload_nodes(p@)->0);
            },
            None => {},
        }
        let ghost fs = node_views(frags@);
        if frags.len() == 0 {
            assert(fs =~= Seq::<NodeView>::empty());
            return Err(UrbitAPIError::FailedToCreateGraphFromJSON);
        }
        let mut done: Vec<Node> = Vec::new();
        let mut building = frags[0].copy();
        let mut i: usize = 1;
        assert(fs.subrange(0, 1).len() == 1);
        assert(node_views(done@) =~= Seq::<NodeView>::empty());
        while i < frags.len()
            invariant
                fs == node_views(frags@),
                1 <= i <= frags@.len(),
                fold_tree(fs.subrange(0, i as int)) == (node_views(done@), building@),
            decreases frags@.len() - i,
        {
            let ghost next = fs.subrange(0, i as int + 1);
            assert(next.drop_last() =~= fs.subrange(0, i as int));
            assert(next.last() == frags@[i as int]@);
            proof {
                lemma_node_view(&frags@[i as int]);
                lemma_node_view(&building);
            }
            let ghost b0 = building@;
            let placed = if building.is_parent(&frags[i]) {
                building.attach(frags[i].copy())
            } else {
                false
            };
            if !placed {
                let ghost before = node_views(done@);
                let finished = building;
                building = frags[i].copy();
                done.push(finished);
                assert(node_views(done@) =~= before.push(b0));
            }
            i = i + 1;
        }
        assert(fs.subrange(0, i as int) =~= fs);
        let ghost before = node_views(done@);
        let ghost bv = building@;
        done.push(building);
        assert(node_views(done@) =~= before.push(bv));
        Ok(Graph { nodes: done })
    }

    /// The full-graph payload of this graph:
    /// `{"graph-update": {"add-graph": {"graph": [{index: node}, ..]}}}`.
    pub fn to_json(&self) -> (r: Json)
        ensures
            r@ == graph_wire(self@),
    {
        let mut v: Vec<Json> = Vec::new();
        let mut i: usize = 0;
        while i < self.nodes.len()
            invariant
                i <= self.nodes@.len(),
                v@.len() == i,
                forall|j: int|
                    0 <= j < i ==> #[trigger] v@[j]@ == JsonModel::Object(
                        seq![(self@[j].index, node_wire(self@[j]))],
                    ),
            decreases self.nodes@.len() - i,
        {
            proof {
                lemma_node_view(&self.nodes@[i as int]);
            }
            v.push(self.nodes[i].to_json());
            i = i + 1;
        }
        let arr = Json::Array(v);
        proof {
            lemma_array_view(&arr);
            assert(arr@->Array_0 =~= keyed_nodes(self@));
        }
        let g = Json::Object(vec![("graph".to_owned(), arr)]);
        let a = Json::Object(vec![("add-graph".to_owned(), g)]);
        let r = Json::Object(vec![("graph-update".to_owned(), a)]);
        proof {
            lemma_object_view(&g);
            lemma_object_view(&a);
            lemma_object_view(&r);
            let keys = seq!["graph-update"@, "add-graph"@, "graph"@];
            reveal_with_fuel(single_path, 4);
            assert(keys.drop_first() =~= seq!["add-graph"@, "graph"@]);
            assert(keys.drop_first().drop_first() =~= seq!["graph"@]);
            assert(keys.drop_first().drop_first().drop_first() =~= Seq::<Seq<char>>::empty());
            assert(g@->Object_0 =~= seq![("graph"@, arr@)]);
            assert(a@->Object_0 =~= seq![("add-graph"@, g@)]);
            assert(r@->Object_0 =~= seq![("graph-update"@, a@)]);
        }
        r
    }
}

/// The full-graph payload of a forest.
pub open spec fn graph_wire(g: Seq<NodeView>) -> JsonModel {
    single_path(seq!["graph-update"@, "add-graph"@, "graph"@], JsonModel::Array(keyed_nodes(g)))
}

/// Each node keyed by its index: `{index: node}`.
pub open spec fn keyed_nodes(ns: Seq<NodeView>) -> Seq<JsonModel> {
    ns.map_values(|n: NodeView| JsonModel::Object(seq![(n.index, node_wire(n))]))
}

/// Nested single-member objects leading along `keys` to `v`.
pub open spec fn single_path(keys: Seq<Seq<char>>, v: JsonModel) -> JsonModel
    decreases keys.len(),
{
    if keys.len() == 0 {
        v
    } else {
        JsonModel::Object(seq![(keys[0], single_path(keys.drop_first(), v))])
    }
}

impl Node {
    /// The node of a single-node update payload, with those of its children
    /// that parse.
    pub fn from_graph_update_json(wrapped_json: &Json) -> (r: Result<Node, UrbitAPIError>)
        ensures
            match r {
                Ok(n) => update_node(wrapped_json@) == Some(n@),
                Err(e) => update_node(wrapped_json@) is None && e
                    == UrbitAPIError::FailedToCreateGraphNodeFromJSON,
            },
    {
        match json_at(wrapped_json, "graph-update", "add-nodes", "nodes") {
            Some(nodes) => match nodes {
                Json::Object(m) => {
                    proof {
                        lemma_object_view(nodes);
                    }
                    if m.len() == 1 {
                        Node::from_json(&m[0].1)
                    } else {
                        Err(UrbitAPIError::FailedToCreateGraphNodeFromJSON)
                    }
                },
                _ => Err(UrbitAPIError::FailedToCreateGraphNodeFromJSON),
            },
            None => Err(UrbitAPIError::FailedToCreateGraphNodeFromJSON),
        }
    }

    /// The time the node was sent, as `YYYY-MM-DD HH:MM:SS` in UTC; `None`
    /// where the date is out of chrono's range.
    pub fn time_sent_formatted(&self) -> (r: Option<String>)
        ensures
            match r {
                Some(s) => utc_text(self.time_sent as int / 1000) == Some(s@),
                None => utc_text(self.time_sent as int / 1000) is None,
            },
    {
        format_utc((self.time_sent / 1000) as i64)
    }
}

} // verus!
