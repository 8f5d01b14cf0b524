use vstd::prelude::*;
use crate::codec::mint_leaf_index;
use crate::contents::NodeContents;
use crate::graph::{Node, NodeView, node_wire};
use crate::json::{Json, JsonModel, member_views, lemma_object_view, lemma_array_view};
use crate::text::decimal;
use crate::codec::da_of_unix;

verus! {

/// The kind of module that a graph belongs to.
#[derive(Debug, Clone, Copy, PartialEq, Eq)]
pub enum Module {
    Chat,
    Notebook,
    Collection,
    Null,
}

/// The validator name of a module.
pub open spec fn validator_of(module: Module) -> Seq<char> {
    match module {
        Module::Chat => "graph-validator-chat"@,
        Module::Notebook => "graph-validator-publish"@,
        Module::Collection => "graph-validator-link"@,
        Module::Null => Seq::empty(),
    }
}

/// The mark of a module.
pub open spec fn mark_of(module: Module) -> Seq<char> {
    match module {
        Module::Chat => "chat"@,
        Module::Notebook => "publish"@,
        Module::Collection => "link"@,
        Module::Null => Seq::empty(),
    }
}

/// The name of the graph validator for a module.
pub fn module_to_validator_string(module: &Module) -> (r: String)
    ensures
        r@ == validator_of(*module),
{
    match module {
        Module::Chat => "graph-validator-chat".to_owned(),
        Module::Notebook => "graph-validator-publish".to_owned(),
        Module::Collection => "graph-validator-link".to_owned(),
        Module::Null => String::new(),
    }
}

/// The mark of a module's graph.
pub fn module_to_mark(module: &Module) -> (r: String)
    ensures
        r@ == mark_of(*module),
{
    match module {
        Module::Chat => "chat".to_owned(),
        Module::Notebook => "publish".to_owned(),
        Module::Collection => "link".to_owned(),
        Module::Null => String::new(),
    }
}

/// `{"ship": ship, "name": name}`.
pub open spec fn resource_wire(ship: Seq<char>, name: Seq<char>) -> JsonModel {
    JsonModel::Object(seq![("ship"@, JsonModel::Str(ship)), ("name"@, JsonModel::Str(name))])
}

/// The author of posts made by `ship_name`: the name behind a `~`.
pub open spec fn author_of(ship_name: Seq<char>) -> Seq<char> {
    seq!['~'] + ship_name
}

fn object_of(members: Vec<(String, Json)>) -> (r: Json)
    ensures
        r@ == JsonModel::Object(member_views(members@)),
{
    let r = Json::Object(members);
    proof {
        lemma_object_view(&r);
    }
    r
}

/// The resource `ship`/`name` of a graph.
pub fn resource_json(resource_ship: &str, resource_name: &str) -> (r: Json)
    ensures
        r@ == resource_wire(resource_ship@, resource_name@),
{
    let members = vec![
        ("ship".to_owned(), Json::from_str(resource_ship)),
        ("name".to_owned(), Json::from_str(resource_name)),
    ];
    let r = object_of(members);
    assert(member_views(members@) =~= resource_wire(resource_ship@, resource_name@)->Object_0);
    r
}

/// The update that adds `node` (with everything below it) to a graph:
/// `{"add-nodes": {"resource": .., "nodes": {index: node}}}`.
pub fn add_nodes_action(resource_ship: &str, resource_name: &str, node: &Node) -> (r: Json)
    ensures
        r@ == JsonModel::Object(
            seq![
                (
                    "add-nodes"@,
                    JsonModel::Object(
                        seq![
                            ("resource"@, resource_wire(resource_ship@, resource_name@)),
                            ("nodes"@, JsonModel::Object(seq![(node.index@, node_wire(node@))])),
                        ],
                    ),
                ),
            ],
        ),
{
    let inner_members = vec![
        ("resource".to_owned(), resource_json(resource_ship, resource_name)),
        ("nodes".to_owned(), node.to_json()),
    ];
    let inner = object_of(inner_members);
    let members = vec![("add-nodes".to_owned(), inner)];
    let r = object_of(members);
    assert(member_views(inner_members@) =~= seq![
        ("resource"@, resource_wire(resource_ship@, resource_name@)),
        ("nodes"@, JsonModel::Object(seq![(node.index@, node_wire(node@))])),
    ]);
    assert(member_views(members@) =~= seq![("add-nodes"@, inner@)]);
    r
}

/// The update that removes the nodes at `indices` from a graph:
/// `{"remove-nodes": {"resource": .., "indices": [..]}}`.
pub fn remove_nodes_action(resource_ship: &str, resource_name: &str, indices: &Vec<String>) -> (r: Json)
    ensures
        r@ == JsonModel::Object(
            seq![
                (
                    "remove-nodes"@,
                    JsonModel::Object(
                        seq![
                            ("resource"@, resource_wire(resource_ship@, resource_name@)),
                            ("indices"@, JsonModel::Array(
                                indices@.map_values(|i: String| JsonModel::Str(i@)),
                            )),
                        ],
                    ),
                ),
            ],
        ),
{
    let mut list: Vec<Json> = Vec::new();
    let mut i: usize = 0;
    while i < indices.len()
        invariant
            i <= indices@.len(),
            list@.len() == i,
            forall|j: int| 0 <= j < i ==> #[trigger] list@[j]@ == JsonModel::Str(indices@[j]@),
        decreases indices@.len() - i,
    {
        list.push(Json::Str(indices[i].clone()));
        i = i + 1;
    }
    let arr = Json::Array(list);
    proof {
        lemma_array_view(&arr);
        assert(arr@->Array_0 =~= indices@.map_values(|i: String| JsonModel::Str(i@)));
    }
    let inner_members = vec![
        ("resource".to_owned(), resource_json(resource_ship, resource_name)),
        ("indices".to_owned(), arr),
    ];
    let inner = object_of(inner_members);
    let members = vec![("remove-nodes".to_owned(), inner)];
    let r = object_of(members);
    assert(member_views(inner_members@) =~= seq![
        ("resource"@, resource_wire(resource_ship@, resource_name@)),
        ("indices"@, JsonModel::Array(indices@.map_values(|i: String| JsonModel::Str(i@)))),
    ]);
    assert(member_views(members@) =~= seq![("remove-nodes"@, inner@)]);
    r
}

/// An action on a whole graph, `{kind: {"resource": ..}}`: `delete` or
/// `leave`.
pub fn graph_action(kind: &str, resource_ship: &str, resource_name: &str) -> (r: Json)
    ensures
        r@ == JsonModel::Object(
            seq![(kind@, JsonModel::Object(seq![("resource"@, resource_wire(resource_ship@, resource_name@))]))],
        ),
{
    let inner_members = vec![("resource".to_owned(), resource_json(resource_ship, resource_name))];
    let inner = object_of(inner_members);
    let members = vec![(kind.to_owned(), inner)];
    let r = object_of(members);
    assert(member_views(inner_members@) =~= seq![("resource"@, resource_wire(resource_ship@, resource_name@))]);
    assert(member_views(members@) =~= seq![(kind@, inner@)]);
    r
}

/// A tag action on a graph, `{kind: {"resource": .., "term": tag}}`:
/// `add-tag` or `remove-tag`.
pub fn tag_action(kind: &str, resource_ship: &str, resource_name: &str, tag: &str) -> (r: Json)
    ensures
        r@ == JsonModel::Object(
            seq![
                (
                    kind@,
                    JsonModel::Object(
                        seq![
                            ("resource"@, resource_wire(resource_ship@, resource_name@)),
                            ("term"@, JsonModel::Str(tag@)),
                        ],
                    ),
                ),
            ],
        ),
{
    let inner_members = vec![
        ("resource".to_owned(), resource_json(resource_ship, resource_name)),
        ("term".to_owned(), Json::from_str(tag)),
    ];
    let inner = object_of(inner_members);
    let members = vec![(kind.to_owned(), inner)];
    let r = object_of(members);
    assert(member_views(inner_members@) =~= seq![
        ("resource"@, resource_wire(resource_ship@, resource_name@)),
        ("term"@, JsonModel::Str(tag@)),
    ]);
    assert(member_views(members@) =~= seq![(kind@, inner@)]);
    r
}

/// A new top-level node posted by `ship_name` at Unix time `now_ms`, its
/// index minted from that time.
pub fn new_node(ship_name: &str, contents: &NodeContents, now_ms: u64) -> (r: Node)
    ensures
        r@ == (NodeView {
            index: seq!['/'] + decimal(da_of_unix(now_ms) as nat),
            author: author_of(ship_name@),
            time_sent: now_ms,
            signatures: Seq::empty(),
            contents: contents@,
            hash: None,
            children: Seq::empty(),
        }),
{
    new_node_specified(ship_name, mint_leaf_index(now_ms).as_str(), now_ms, contents)
}

/// A new node posted by `ship_name` with the given index and time.
pub fn new_node_specified(ship_name: &str, node_index: &str, unix_time: u64, contents: &NodeContents) -> (r: Node)
    ensures
        r@ == (NodeView {
            index: node_index@,
            author: author_of(ship_name@),
            time_sent: unix_time,
            signatures: Seq::empty(),
            contents: contents@,
            hash: None,
            children: Seq::empty(),
        }),
{
    let mut author = String::new();
    author.push('~');
    author.append(ship_name);
    assert(author@ =~= author_of(ship_name@));
    let sigs: Vec<String> = Vec::new();
    assert(sigs@.map_values(|s: String| s@) =~= Seq::<Seq<char>>::empty());
    Node::new(node_index.to_owned(), author, unix_time, sigs, contents.copy(), None)
}

/// The request that creates a graph named `name` of the ship
/// `ship_with_sig`, with its title, description, association and module.
pub fn create_graph_request(
    ship_with_sig: &str,
    name: &str,
    title: &str,
    description: &str,
    associated: Json,
    module: &Module,
) -> (r: Json)
    ensures
        r@ == JsonModel::Object(
            seq![
                (
                    "create"@,
                    JsonModel::Object(
                        seq![
                            ("resource"@, resource_wire(ship_with_sig@, name@)),
                            ("title"@, JsonModel::Str(title@)),
                            ("description"@, JsonModel::Str(description@)),
                            ("associated"@, associated@),
                            ("module"@, JsonModel::Str(validator_of(*module))),
                            ("mark"@, JsonModel::Str(mark_of(*module))),
                        ],
                    ),
                ),
            ],
        ),
{
    let ghost av = associated@;
    let inner_members = vec![
        ("resource".to_owned(), resource_json(ship_with_sig, name)),
        ("title".to_owned(), Json::from_str(title)),
        ("description".to_owned(), Json::from_str(description)),
        ("associated".to_owned(), associated),
        ("module".to_owned(), Json::Str(module_to_validator_string(module))),
        ("mark".to_owned(), Json::Str(module_to_mark(module))),
    ];
    let inner = object_of(inner_members);
    let members = vec![("create".to_owned(), inner)];
    let r = object_of(members);
    assert(member_views(inner_members@) =~= seq![
        ("resource"@, resource_wire(ship_with_sig@, name@)),
        ("title"@, JsonModel::Str(title@)),
        ("description"@, JsonModel::Str(description@)),
        ("associated"@, av),
        ("module"@, JsonModel::Str(validator_of(*module))),
        ("mark"@, JsonModel::Str(mark_of(*module))),
    ]);
    assert(member_views(members@) =~= seq![("create"@, inner@)]);
    r
}

/// The association of a graph managed by the group `ship`/`name`:
/// `{"group": {"ship": .., "name": ..}}`.
pub fn group_association(group_ship: &str, group_name: &str) -> (r: Json)
    ensures
        r@ == JsonModel::Object(seq![("group"@, resource_wire(group_ship@, group_name@))]),
{
    let members = vec![("group".to_owned(), resource_json(group_ship, group_name))];
    let r = object_of(members);
    assert(member_views(members@) =~= seq![("group"@, resource_wire(group_ship@, group_name@))]);
    r
}

/// The association of a graph of no group, open to invited ships:
/// `{"policy": {"invite": {"pending": []}}}`.
pub fn invite_association() -> (r: Json)
    ensures
        r@ == JsonModel::Object(
            seq![
                (
                    "policy"@,
                    JsonModel::Object(
                        seq![("invite"@, JsonModel::Object(seq![("pending"@, JsonModel::Array(Seq::empty()))]))],
                    ),
                ),
            ],
        ),
{
    let pending = Json::Array(Vec::new());
    proof {
        lemma_array_view(&pending);
        assert(pending@->Array_0 =~= Seq::<JsonModel>::empty());
    }
    let m1 = vec![("pending".to_owned(), pending)];
    let invite = object_of(m1);
    assert(member_views(m1@) =~= seq![("pending"@, JsonModel::Array(Seq::empty()))]);
    let m2 = vec![("invite".to_owned(), invite)];
    let policy = object_of(m2);
    assert(member_views(m2@) =~= seq![("invite"@, invite@)]);
    let m3 = vec![("policy".to_owned(), policy)];
    let r = object_of(m3);
    assert(member_views(m3@) =~= seq![("policy"@, policy@)]);
    r
}

} // verus!
