use vstd::prelude::*;
use crate::contents::{NodeContents, ContentModel, display_text};
use crate::graph::{Node, NodeView, node_views, utc_text, at_path, update_node, lemma_node_view};
use crate::json::{Json, JsonModel, json_of_text};
use crate::note::message_of;
use crate::text::str_eq;

verus! {

/// A message with its author, the time it was sent and its index.
#[derive(Debug, Clone)]
pub struct AuthoredMessage {
    pub author: String,
    pub contents: NodeContents,
    pub time_sent: String,
    pub index: String,
}

/// The mathematical value of an `AuthoredMessage`.
pub struct MessageView {
    pub author: Seq<char>,
    pub contents: Seq<ContentModel>,
    pub time_sent: Seq<char>,
    pub index: Seq<char>,
}

impl View for AuthoredMessage {
    type V = MessageView;

    open spec fn view(&self) -> MessageView {
        MessageView {
            author: self.author@,
            contents: self.contents@,
            time_sent: self.time_sent@,
            index: self.index@,
        }
    }
}

/// The messages of the nodes that hold contents, in order; `None` where the
/// time of one of them cannot be written as a date.
pub open spec fn messages_of(nodes: Seq<Node>) -> Option<Seq<MessageView>>
    decreases nodes.len(),
{
    if nodes.len() == 0 {
        Some(Seq::empty())
    } else {
        let n = nodes.last();
        match messages_of(nodes.drop_last()) {
            Some(ms) => if n.contents@.len() == 0 {
                Some(ms)
            } else {
                match utc_text(n.time_sent as int / 1000) {
                    Some(t) => Some(
                        ms.push(
                            MessageView {
                                author: n.author@,
                                contents: n.contents@,
                                time_sent: t,
                                index: n.index@,
                            },
                        ),
                    ),
                    None => None,
                }
            },
            None => None,
        }
    }
}

/// `time - ~author:` followed by the contents' text behind a space, when
/// there is any.
pub open spec fn message_line(
    time_sent: Seq<char>,
    author: Seq<char>,
    contents: Seq<ContentModel>,
) -> Seq<char> {
    let head = time_sent + " - ~"@ + author + seq![':'];
    if contents.len() == 0 {
        head
    } else {
        head + seq![' '] + display_text(contents)
    }
}

/// Whether a graph update is for the resource `resource_ship`/`resource_name`:
/// its `graph-update.add-nodes.resource` names that ship (written here with
/// its `~`) and that name.
pub open spec fn is_for_resource(
    resource_ship: Seq<char>,
    resource_name: Seq<char>,
    update: JsonModel,
) -> bool {
    match at_path(update, seq!["graph-update"@, "add-nodes"@, "resource"@]) {
        Some(res) => match (res.field("name"@), res.field("ship"@)) {
            (Some(JsonModel::Str(n)), Some(JsonModel::Str(s))) => n == resource_name && seq!['~']
                + s == resource_ship,
            _ => false,
        },
        None => false,
    }
}

impl AuthoredMessage {
    pub fn new(author: &str, contents: &NodeContents, time_sent: &str, index: &str) -> (r: Self)
        ensures
            r.author@ == author@,
            r.contents@ == contents@,
            r.time_sent@ == time_sent@,
            r.index@ == index@,
    {
        AuthoredMessage {
            author: author.to_owned(),
            contents: contents.copy(),
            time_sent: time_sent.to_owned(),
            index: index.to_owned(),
        }
    }

    /// The message that a node holds; `None` where its time is out of the
    /// range that can be written as a date.
    pub fn from_node(node: &Node) -> (r: Option<Self>)
        ensures
            match r {
                Some(m) => utc_text(node.time_sent as int / 1000) == Some(m.time_sent@)
                    && m.author@ == node.author@ && m.contents@ == node.contents@ && m.index@
                    == node.index@,
                None => utc_text(node.time_sent as int / 1000) is None,
            },
    {
        match node.time_sent_formatted() {
            Some(t) => Some(
                AuthoredMessage::new(node.author.as_str(), &node.contents, t.as_str(), node.index.as_str()),
            ),
            None => None,
        }
    }

    /// The message as one line: `time - ~author: text`.
    pub fn to_formatted_string(&self) -> (r: String)
        ensures
            r@ == message_line(self.time_sent@, self.author@, self.contents@),
    {
        let mut s = self.time_sent.clone();
        s.append(" - ~");
        s.append(self.author.as_str());
        s.push(':');
        if !self.contents.is_empty() {
            s.push(' ');
            let text = self.contents.to_formatted_string();
            s.append(text.as_str());
        }
        s
    }
}

/// Whether a graph update is for the resource `resource_ship` (with its `~`)
/// and `resource_name`.
pub fn check_resource_json(resource_ship: &str, resource_name: &str, resource_json: &Json) -> (r: bool)
    ensures
        r == is_for_resource(resource_ship@, resource_name@, resource_json@),
{
    let res = match resource_json.get("graph-update") {
        Some(a) => match a.get("add-nodes") {
            Some(b) => b.get("resource"),
            None => None,
        },
        None => None,
    };
    proof {
        let keys = seq!["graph-update"@, "add-nodes"@, "resource"@];
        reveal_with_fuel(at_path, 4);
        assert(keys.drop_last() =~= seq!["graph-update"@, "add-nodes"@]);
        assert(keys.drop_last().drop_last() =~= seq!["graph-update"@]);
        assert(keys.drop_last().drop_last().drop_last() =~= Seq::<Seq<char>>::empty());
    }
    let res = match res {
        Some(res) => res,
        None => {
            return false;
        },
    };
    match (res.get("name"), res.get("ship")) {
        (Some(Json::Str(n)), Some(Json::Str(s))) => {
            let mut full = String::new();
            full.push('~');
            full.append(s.as_str());
            assert(full@ =~= seq!['~'] + s@);
            str_eq(n.as_str(), resource_name) && str_eq(full.as_str(), resource_ship)
        },
        _ => false,
    }
}

/// The messages of the nodes that hold contents, in order; `None` where a
/// node's time cannot be written as a date.
pub fn authored_messages(nodes: &Vec<Node>) -> (r: Option<Vec<AuthoredMessage>>)
    ensures
        match r {
            Some(ms) => messages_of(nodes@) == Some(ms@.map_values(|m: AuthoredMessage| m@)),
            None => messages_of(nodes@) is None,
        },
{
    let mut out: Vec<AuthoredMessage> = Vec::new();
    let mut i: usize = 0;
    assert(nodes@.subrange(0, 0) =~= Seq::<Node>::empty());
    assert(out@.map_values(|m: AuthoredMessage| m@) =~= Seq::<MessageView>::empty());
    while i < nodes.len()
        invariant
            i <= nodes@.len(),
            messages_of(nodes@.subrange(0, i as int)) == Some(
                out@.map_values(|m: AuthoredMessage| m@),
            ),
        decreases nodes@.len() - i,
    {
        let ghost next = nodes@.subrange(0, i as int + 1);
        assert(next.drop_last() =~= nodes@.subrange(0, i as int));
        if !nodes[i].contents.is_empty() {
            match AuthoredMessage::from_node(&nodes[i]) {
                Some(m) => {
                    let ghost before = out@;
                    let ghost mv = m@;
                    out.push(m);
                    assert(out@.map_values(|m: AuthoredMessage| m@) =~= before.map_values(
                        |m: AuthoredMessage| m@,
                    ).push(mv));
                },
                None => {
                    proof {
                        lemma_messages_prefix_none(nodes@, i as int + 1);
                    }
                    return None;
                },
            }
        }
        i = i + 1;
    }
    assert(nodes@.subrange(0, i as int) =~= nodes@);
    Some(out)
}

proof fn lemma_messages_prefix_none(nodes: Seq<Node>, k: int)
    requires
        0 < k <= nodes.len(),
        messages_of(nodes.subrange(0, k)) is None,
    ensures
        messages_of(nodes) is None,
    decreases nodes.len() - k,
{
    if k < nodes.len() {
        let next = nodes.subrange(0, k + 1);
        assert(next.drop_last() =~= nodes.subrange(0, k));
        lemma_messages_prefix_none(nodes, k + 1);
    } else {
        assert(nodes.subrange(0, k) =~= nodes);
    }
}

/// The message that a queued graph-store fact carries for the resource
/// `resource_ship` (with its `~`) and `resource_name`: `None` where the fact
/// is not JSON, is for another resource, holds no single node, or its time
/// cannot be written as a date.
pub open spec fn update_message(
    resource_ship: Seq<char>,
    resource_name: Seq<char>,
    fact: Seq<char>,
) -> Option<MessageView> {
    match json_of_text(fact) {
        Some(j) => if is_for_resource(resource_ship, resource_name, j) {
            match update_node(j) {
                Some(n) => message_of(n),
                None => None,
            }
        } else {
            None
        },
        None => None,
    }
}

/// Reads a queued graph-store fact as a message of the resource
/// `resource_ship` (with its `~`) and `resource_name`.
pub fn message_of_update(resource_ship: &str, resource_name: &str, fact: &str) -> (r: Option<AuthoredMessage>)
    ensures
        match r {
            Some(m) => update_message(resource_ship@, resource_name@, fact@) == Some(m@),
            None => update_message(resource_ship@, resource_name@, fact@) is None,
        },
{
    let json = match Json::parse(fact) {
        Some(j) => j,
        None => {
            return None;
        },
    };
    if !check_resource_json(resource_ship, resource_name, &json) {
        return None;
    }
    let node = match Node::from_graph_update_json(&json) {
        Ok(n) => n,
        Err(_) => {
            return None;
        },
    };
    proof {
        lemma_node_view(&node);
    }
    AuthoredMessage::from_node(&node)
}

/// The name of the direct-message chat with `ship`: `dm--ship`.
pub fn ship_to_dm_name(ship: &str) -> (r: String)
    ensures
        r@ == "dm--"@ + ship@,
{
    let mut s = "dm--".to_owned();
    s.append(ship);
    s
}

/// Where a node sent at `t` goes in a list sorted by time: after every node
/// sent at `t` or earlier.
pub open spec fn insert_pos(s: Seq<NodeView>, t: u64) -> int
    decreases s.len(),
{
    if s.len() == 0 {
        0
    } else if s.last().time_sent <= t {
        s.len() as int
    } else {
        insert_pos(s.drop_last(), t)
    }
}

/// The nodes sorted by the time they were sent, nodes sent at the same time
/// kept in their order (a stable sort).
pub open spec fn sorted_by_time(s: Seq<NodeView>) -> Seq<NodeView>
    decreases s.len(),
{
    if s.len() == 0 {
        Seq::empty()
    } else {
        let p = sorted_by_time(s.drop_last());
        p.insert(insert_pos(p, s.last().time_sent), s.last())
    }
}

/// Whether the nodes are in order of the time they were sent.
pub open spec fn is_time_ordered(s: Seq<NodeView>) -> bool {
    forall|i: int, j: int| 0 <= i < j < s.len() ==> s[i].time_sent <= s[j].time_sent
}

proof fn lemma_insert_pos(s: Seq<NodeView>, t: u64)
    requires
        is_time_ordered(s),
    ensures
        0 <= insert_pos(s, t) <= s.len(),
        forall|i: int| 0 <= i < insert_pos(s, t) ==> s[i].time_sent <= t,
        forall|i: int| insert_pos(s, t) <= i < s.len() ==> s[i].time_sent > t,
    decreases s.len(),
{
    if s.len() > 0 {
        let p = s.drop_last();
        assert(is_time_ordered(p));
        lemma_insert_pos(p, t);
        assert forall|i: int| 0 <= i < p.len() implies p[i] == s[i] by {}
        if s.last().time_sent <= t {
            assert forall|i: int| 0 <= i < s.len() implies s[i].time_sent <= t by {
                if i < s.len() - 1 {
                    assert(s[i].time_sent <= s[s.len() - 1].time_sent);
                }
            }
        }
    }
}

/// A stable sort by time gives nodes in order of time.
pub proof fn lemma_sorted_by_time(s: Seq<NodeView>)
    ensures
        is_time_ordered(sorted_by_time(s)),
        sorted_by_time(s).len() == s.len(),
    decreases s.len(),
{
    if s.len() > 0 {
        let p = sorted_by_time(s.drop_last());
        lemma_sorted_by_time(s.drop_last());
        let t = s.last().time_sent;
        lemma_insert_pos(p, t);
        let k = insert_pos(p, t);
        let r = p.insert(k, s.last());
        assert forall|i: int, j: int| 0 <= i < j < r.len() implies r[i].time_sent <= r[j].time_sent by {
            if j < k {
            } else if j == k {
            } else if i < k {
            } else if i == k {
            } else {
            }
        }
    }
}

/// Sorts nodes by the time they were sent, keeping the order of nodes sent at
/// the same time.
pub fn sort_by_time(nodes: Vec<Node>) -> (r: Vec<Node>)
    ensures
        node_views(r@) == sorted_by_time(node_views(nodes@)),
{
    let ghost all = node_views(nodes@);
    let mut rest = nodes;
    let mut out: Vec<Node> = Vec::new();
    let ghost done: int = 0;
    assert(all.subrange(0, 0) =~= Seq::<NodeView>::empty());
    assert(node_views(out@) =~= Seq::<NodeView>::empty());
    assert(node_views(rest@) =~= all.subrange(0, all.len() as int));
    while rest.len() > 0
        invariant
            0 <= done <= all.len(),
            rest@.len() + done == all.len(),
            node_views(rest@) == all.subrange(done, all.len() as int),
            node_views(out@) == sorted_by_time(all.subrange(0, done)),
        decreases rest@.len(),
    {
        let ghost before_rest = rest@;
        let n = rest.remove(0);
        assert(node_views(rest@) =~= all.subrange(done + 1, all.len() as int)) by {
            assert(rest@ =~= before_rest.drop_first());
            assert forall|j: int| 0 <= j < rest@.len() implies node_views(rest@)[j] == all.subrange(
                done + 1,
                all.len() as int,
            )[j] by {
                assert(node_views(rest@)[j] == rest@[j]@);
                assert(rest@[j] == before_rest[j + 1]);
                assert(node_views(before_rest)[j + 1] == before_rest[j + 1]@);
                assert(node_views(before_rest)[j + 1] == all.subrange(done, all.len() as int)[j + 1]);
            }
        }
        assert(n@ == all[done]) by {
            assert(n == before_rest[0]);
            assert(node_views(before_rest)[0] == before_rest[0]@);
            assert(node_views(before_rest)[0] == all.subrange(done, all.len() as int)[0]);
        }
        let t = n.time_sent;
        let ghost p = node_views(out@);
        let mut k: usize = out.len();
        assert(p.subrange(0, k as int) =~= p);
        while k > 0 && out[k - 1].time_sent > t
            invariant
                k <= out@.len(),
                p == node_views(out@),
                insert_pos(p, t) == insert_pos(p.subrange(0, k as int), t),
            decreases k,
        {
            proof {
                lemma_node_view(&out@[k as int - 1]);
                let q = p.subrange(0, k as int);
                assert(q.drop_last() =~= p.subrange(0, k as int - 1));
            }
            k = k - 1;
        }
        proof {
            if k > 0 {
                lemma_node_view(&out@[k as int - 1]);
            }
            let q = p.subrange(0, k as int);
            assert(q.len() == 0 || q.last().time_sent <= t);
            assert(insert_pos(q, t) == k);
        }
        let ghost nv = n@;
        out.insert(k, n);
        assert(node_views(out@) =~= p.insert(k as int, nv));
        proof {
            let next = all.subrange(0, done + 1);
            assert(next.drop_last() =~= all.subrange(0, done));
            assert(next.last() == nv);
            assert(nv.time_sent == t) by {
                lemma_node_view(&out@[k as int]);
            }
            done = done + 1;
        }
    }
    assert(all.subrange(0, done) =~= all);
    out
}

} // verus!
