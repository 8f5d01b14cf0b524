use urbit_http_api::contents::{ContentItem, NodeContents};
use urbit_http_api::error::UrbitAPIError;
use urbit_http_api::graph::{Graph, Node};
use urbit_http_api::json::Json;

fn s(x: &str) -> Json {
    Json::Str(x.to_string())
}

fn obj(members: Vec<(&str, Json)>) -> Json {
    Json::Object(members.into_iter().map(|(k, v)| (k.to_string(), v)).collect())
}

fn post(index: &str) -> Json {
    obj(vec![
        ("author", s("~zod")),
        ("index", s(index)),
        ("time-sent", Json::from_u64(1_617_040_800_000)),
        ("contents", Json::Array(vec![obj(vec![("text", s("hi"))])])),
        ("hash", Json::Null),
        ("signatures", Json::Array(vec![])),
    ])
}

fn fragment(index: &str, children: Json) -> Json {
    obj(vec![("post", post(index)), ("children", children)])
}

fn graph_payload(graph: Json) -> Json {
    obj(vec![("graph-update", obj(vec![("add-graph", obj(vec![("graph", graph)]))]))])
}

fn node(index: &str, contents: NodeContents) -> Node {
    Node::new(index.to_string(), "~zod".to_string(), 5, vec![], contents, None)
}

fn tails(nodes: &Vec<Node>) -> Vec<String> {
    nodes.iter().map(|n| n.index_tail()).collect()
}

#[test]
fn contents_emptiness() {
    let c = NodeContents::new();
    assert!(c.is_empty());
    assert!(!c.add_text("a").is_empty());
    assert!(!c.add_url("https://urbit.org").is_empty());
    assert!(!c.add_mention("zod").is_empty());
    assert!(!c.add_code("(add 1 1)", "2").is_empty());
    assert!(c.is_empty());
}

#[test]
fn contents_display_text() {
    let c = NodeContents::new().add_text("  hello ").add_mention("zod").add_url("u").add_code("(add 1 1)", "2");
    assert_eq!(
        c.to_formatted_string(),
        r#"hello ~zod u "expression":"(add 1 1)","output":[["2"]]"#
    );
    assert_eq!(
        c.to_formatted_words(),
        vec!["hello", "~zod", "u", r#""expression":"(add"#, "1", r#"1)","output":[["2"]]"#]
    );
    assert_eq!(NodeContents::new().to_formatted_string(), "");
}

#[test]
fn contents_wire_form() {
    let c = NodeContents::new().add_text("a").add_code("e", "o");
    let j = c.to_json();
    let items = match &j {
        Json::Array(a) => a,
        _ => panic!("not an array"),
    };
    assert_eq!(items.len(), 2);
    let back = NodeContents::from_json(items).unwrap();
    assert_eq!(back.content_list.len(), 2);
    match &back.content_list[1] {
        ContentItem::Code { expression, output } => {
            assert_eq!(expression, "e");
            assert_eq!(output, "o");
        }
        _ => panic!("not code"),
    }
    assert!(NodeContents::from_json(&vec![obj(vec![("reference", s("x"))])]).is_none());
}

#[test]
fn tree_builder_nests_fragments_in_document_order() {
    let empty = obj(vec![]);
    let payload = graph_payload(obj(vec![
        ("1", fragment("/1", empty)),
        ("1/1", fragment("/1/1", Json::Null)),
        ("1/2", fragment("/1/2", Json::Null)),
        ("2", fragment("/2", Json::Null)),
    ]));
    let g = Graph::from_json(&payload).unwrap();
    assert_eq!(g.nodes.len(), 2);
    assert_eq!(g.nodes[0].index, "/1");
    assert_eq!(tails(&g.nodes[0].children), vec!["1", "2"]);
    assert_eq!(g.nodes[1].index, "/2");
    assert!(g.nodes[1].children.is_empty());
}

#[test]
fn tree_builder_reads_nested_children() {
    let payload = graph_payload(obj(vec![
        ("1", fragment("/1", obj(vec![("1", fragment("/1/1", obj(vec![("1", fragment("/1/1/1", Json::Null))])))]))),
        ("2", fragment("/2", Json::Null)),
    ]));
    let g = Graph::from_json(&payload).unwrap();
    assert_eq!(g.nodes.len(), 2);
    assert_eq!(g.nodes[0].children.len(), 1);
    assert_eq!(g.nodes[0].children[0].children[0].index, "/1/1/1");
}

#[test]
fn tree_builder_errors() {
    let empty = graph_payload(obj(vec![]));
    assert_eq!(Graph::from_json(&empty).unwrap_err(), UrbitAPIError::FailedToCreateGraphFromJSON);
    let bad = graph_payload(obj(vec![("1", obj(vec![("post", obj(vec![("index", s("/1"))]))]))]));
    assert_eq!(Graph::from_json(&bad).unwrap_err(), UrbitAPIError::FailedToCreateGraphNodeFromJSON);
    assert_eq!(Graph::from_json(&Json::Null).unwrap_err(), UrbitAPIError::FailedToCreateGraphFromJSON);
}

#[test]
fn rebuilding_a_built_graph_gives_the_same_tree() {
    let payload = graph_payload(obj(vec![
        ("1", fragment("/1", Json::Null)),
        ("1/1", fragment("/1/1", Json::Null)),
        ("1/2", fragment("/1/2", Json::Null)),
        ("2", fragment("/2", Json::Null)),
    ]));
    let g = Graph::from_json(&payload).unwrap();
    let again = Graph::from_json(&g.to_json()).unwrap();
    assert_eq!(format!("{:?}", g), format!("{:?}", again));
}

#[test]
fn node_wire_round_trip() {
    let mut root = node("/1", NodeContents::new().add_text("t").add_mention("bus"));
    root.signatures = vec!["sig".to_string()];
    root.hash = Some("0x1".to_string());
    assert!(root.attach(node("/1/1", NodeContents::new().add_code("e", "o"))));
    assert!(root.attach(node("/1/1/7", NodeContents::new().add_url("u"))));
    let back = Node::from_json(&root.to_json_value()).unwrap();
    assert_eq!(format!("{:?}", back), format!("{:?}", root));
}

#[test]
fn attach_places_at_deepest_ancestor_or_fails() {
    let mut root = node("/1", NodeContents::new());
    assert!(root.attach(node("/1/1", NodeContents::new())));
    assert!(root.attach(node("/1/2", NodeContents::new())));
    assert!(root.attach(node("/1/2/5", NodeContents::new())));
    assert_eq!(root.children.len(), 2);
    assert_eq!(root.children[1].children[0].index, "/1/2/5");
    assert!(!root.attach(node("/1/3/4", NodeContents::new())));
    assert!(!root.attach(node("/2", NodeContents::new())));
    assert_eq!(root.children.len(), 2);
    let grown = root.add_child(&node("/1/1/9", NodeContents::new())).unwrap();
    assert_eq!(grown.children[0].children.len(), 1);
    assert!(root.add_child(&node("/9/9", NodeContents::new())).is_none());
}

#[test]
fn node_relations() {
    let a = node("/1", NodeContents::new());
    let b = node("/1/2", NodeContents::new());
    assert!(a.is_direct_parent(&b));
    assert!(a.is_parent(&b));
    assert!(!b.is_parent(&a));
    assert_eq!(b.parent_index(), Some("/1".to_string()));
    assert_eq!(a.parent_index(), None);
    assert_eq!(b.index_tail(), "2");
}

#[test]
fn update_payload_gives_its_one_node() {
    let wrapped = obj(vec![(
        "graph-update",
        obj(vec![("add-nodes", obj(vec![("nodes", obj(vec![("/5", fragment("/5", Json::Null))]))]))]),
    )]);
    let n = Node::from_graph_update_json(&wrapped).unwrap();
    assert_eq!(n.index, "/5");
    assert_eq!(n.time_sent, 1_617_040_800_000);
    let two = obj(vec![(
        "graph-update",
        obj(vec![("add-nodes", obj(vec![("nodes", obj(vec![("/5", fragment("/5", Json::Null)), ("/6", fragment("/6", Json::Null))]))]))]),
    )]);
    assert!(Node::from_graph_update_json(&two).is_err());
}

#[test]
fn time_is_formatted_in_utc() {
    let mut n = node("/1", NodeContents::new());
    n.time_sent = 1_431_648_000_000;
    assert_eq!(n.time_sent_formatted(), Some("2015-05-15 00:00:00".to_string()));
    n.time_sent = u64::MAX;
    assert_eq!(n.time_sent_formatted(), None);
}

#[test]
fn repeated_index_goes_beside_the_first_and_descendants_go_to_the_first() {
    let payload = graph_payload(obj(vec![
        ("1", fragment("/1", Json::Null)),
        ("1/1", fragment("/1/1", Json::Null)),
        ("1/1b", fragment("/1/1", Json::Null)),
        ("1/1/5", fragment("/1/1/5", Json::Null)),
    ]));
    let g = Graph::from_json(&payload).unwrap();
    assert_eq!(g.nodes.len(), 1);
    assert_eq!(g.nodes[0].children.len(), 2);
    assert_eq!(g.nodes[0].children[0].children.len(), 1);
    assert!(g.nodes[0].children[1].children.is_empty());
    let again = Graph::from_json(&g.to_json()).unwrap();
    assert_eq!(format!("{:?}", g), format!("{:?}", again));
}

#[test]
fn fragment_below_a_gap_starts_a_tree_of_its_own() {
    let payload = graph_payload(obj(vec![
        ("1", fragment("/1", Json::Null)),
        ("1/2/3", fragment("/1/2/3", Json::Null)),
    ]));
    let g = Graph::from_json(&payload).unwrap();
    assert_eq!(g.nodes.len(), 2);
    assert_eq!(g.nodes[1].index, "/1/2/3");
}
