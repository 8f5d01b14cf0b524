use urbit_http_api::collections::Link;
use urbit_http_api::contents::NodeContents;
use urbit_http_api::graph::Node;
use urbit_http_api::graphstore::{
    add_nodes_action, create_graph_request, graph_action, group_association, invite_association, new_node,
    new_node_specified, remove_nodes_action, tag_action, Module,
};
use urbit_http_api::json::Json;
use urbit_http_api::messaging::{authored_messages, check_resource_json, AuthoredMessage};
use urbit_http_api::note::{lex_less, Note};
use urbit_http_api::codec::unix_time_to_da;

const T: u64 = 1_431_648_000_000;

fn node(index: &str, contents: NodeContents) -> Node {
    new_node_specified("zod", index, T, &contents)
}

fn note_tree() -> Node {
    let mut root = node("/170", NodeContents::new());
    assert!(root.attach(node("/170/1", NodeContents::new())));
    assert!(root.attach(node("/170/2", NodeContents::new())));
    assert!(root.attach(node("/170/1/1", NodeContents::new().add_text("Old").add_text("old body"))));
    assert!(root.attach(node("/170/1/2", NodeContents::new().add_text("Title").add_text("line one\\nline two"))));
    assert!(root.attach(node("/170/2/5", NodeContents::new())));
    assert!(root.attach(node("/170/2/5/1", NodeContents::new().add_text("first"))));
    assert!(root.attach(node("/170/2/5/2", NodeContents::new().add_text("second"))));
    root
}

#[test]
fn note_reads_latest_revision_and_comments() {
    let note = Note::from_node(&note_tree(), None).unwrap();
    assert_eq!(note.title, "Title");
    assert_eq!(note.contents, "line one\\nline two");
    assert_eq!(note.author, "~zod");
    assert_eq!(note.time_sent, "2015-05-15 00:00:00");
    assert_eq!(note.index, "/170/1/2");
    assert_eq!(note.comments.len(), 1);
    assert_eq!(note.comments[0].index, "/170/2/5/2");
    assert_eq!(note.content_as_markdown(), vec!["line one", "line two"]);
}

#[test]
fn note_reads_a_given_revision() {
    let note = Note::from_node(&note_tree(), Some("/170/1/1".to_string())).unwrap();
    assert_eq!(note.title, "Old");
    assert_eq!(note.index, "/170/1/1");
    let fallback = Note::from_node(&note_tree(), Some("/170/1/9".to_string())).unwrap();
    assert_eq!(fallback.index, "/170/1/1");
}

#[test]
fn note_errors_on_other_nodes() {
    let lone = node("/170", NodeContents::new());
    assert!(Note::from_node(&lone, None).is_err());
}

#[test]
fn markdown_lines_split_at_escapes_only() {
    let mut note = Note::from_node(&note_tree(), None).unwrap();
    note.contents = "a\\\\nb\\".to_string();
    assert_eq!(note.content_as_markdown(), vec!["a\\", "b\\"]);
    note.contents = String::new();
    assert_eq!(note.content_as_markdown(), vec![""]);
}

#[test]
fn link_reads_title_url_and_comments() {
    let mut root = node("/9", NodeContents::new().add_text("A link").add_url("https://urbit.org"));
    assert!(root.attach(node("/9/2", NodeContents::new())));
    assert!(root.attach(node("/9/2/3", NodeContents::new())));
    assert!(root.attach(node("/9/2/3/1", NodeContents::new().add_text("nice"))));
    let link = Link::from_node(&root).unwrap();
    assert_eq!(link.title, "A link");
    assert_eq!(link.url, "https://urbit.org");
    assert_eq!(link.comments.len(), 1);
    assert!(Link::from_node(&node("/9", NodeContents::new())).is_err());
}

#[test]
fn lexicographic_order() {
    assert!(lex_less("1", "2"));
    assert!(lex_less("10", "9"));
    assert!(lex_less("", "a"));
    assert!(!lex_less("a", "a"));
    assert!(lex_less("ab", "abc"));
}

#[test]
fn messages_are_formatted_lines() {
    let n = node("/1", NodeContents::new().add_text("hello").add_mention("bus"));
    let m = AuthoredMessage::from_node(&n).unwrap();
    assert_eq!(m.to_formatted_string(), "2015-05-15 00:00:00 - ~~zod: hello ~bus");
    let empty = AuthoredMessage::new("zod", &NodeContents::new(), "t", "/1");
    assert_eq!(empty.to_formatted_string(), "t - ~zod:");
    let nodes = vec![node("/1", NodeContents::new()), n];
    let ms = authored_messages(&nodes).unwrap();
    assert_eq!(ms.len(), 1);
    assert_eq!(ms[0].index, "/1");
}

#[test]
fn resource_check() {
    let update = Json::parse(r#"{"graph-update":{"add-nodes":{"resource":{"ship":"zod","name":"chat-1"},"nodes":{}}}}"#).unwrap();
    assert!(check_resource_json("~zod", "chat-1", &update));
    assert!(!check_resource_json("zod", "chat-1", &update));
    assert!(!check_resource_json("~zod", "chat-2", &update));
    assert!(!check_resource_json("~zod", "chat-1", &Json::Null));
}

#[test]
fn graph_store_actions() {
    let n = node("/1", NodeContents::new().add_text("x"));
    let add = add_nodes_action("~zod", "chat", &n);
    let text = add.dump();
    assert!(text.starts_with(r#"{"add-nodes":{"resource":{"ship":"~zod","name":"chat"},"nodes":{"/1":{"post":"#));
    let remove = remove_nodes_action("~zod", "chat", &vec!["/1".to_string(), "/2".to_string()]);
    assert_eq!(remove.dump(), r#"{"remove-nodes":{"resource":{"ship":"~zod","name":"chat"},"indices":["/1","/2"]}}"#);
    assert_eq!(graph_action("delete", "~zod", "c").dump(), r#"{"delete":{"resource":{"ship":"~zod","name":"c"}}}"#);
    assert_eq!(tag_action("add-tag", "~zod", "c", "t").dump(), r#"{"add-tag":{"resource":{"ship":"~zod","name":"c"},"term":"t"}}"#);
}

#[test]
fn new_nodes_are_indexed_by_time() {
    let n = new_node("zod", &NodeContents::new().add_text("hi"), T);
    assert_eq!(n.index, format!("/{}", unix_time_to_da(T)));
    assert_eq!(n.author, "~zod");
    assert_eq!(n.time_sent, T);
    assert!(n.children.is_empty());
}

#[test]
fn json_text_round_trip_through_the_parser() {
    let j = Json::parse(r#"{"a":[1,true,null,"s",-2.5]}"#).unwrap();
    assert_eq!(j.dump(), r#"{"a":[1,true,null,"s",-2.5]}"#);
    assert!(Json::parse("{").is_none());
    assert_eq!(Json::from_u64(7).dump(), "7");
    assert_eq!(Json::from_str("q\"").dump(), r#""q\"""#);
}

#[test]
fn create_graph_requests() {
    let req = create_graph_request("~zod", "test", "Testing creation", "test", invite_association(), &Module::Chat);
    assert_eq!(
        req.dump(),
        r#"{"create":{"resource":{"ship":"~zod","name":"test"},"title":"Testing creation","description":"test","associated":{"policy":{"invite":{"pending":[]}}},"module":"graph-validator-chat","mark":"chat"}}"#
    );
    assert_eq!(group_association("~bus", "g").dump(), r#"{"group":{"ship":"~bus","name":"g"}}"#);
}

#[test]
fn queued_fact_becomes_a_message_of_its_resource() {
    let fact = r#"{"graph-update":{"add-nodes":{"resource":{"ship":"zod","name":"chat-1"},"nodes":{"/5":{"post":{"author":"~zod","index":"/5","time-sent":1431648000000,"contents":[{"text":"hi"}],"hash":null,"signatures":[]},"children":null}}}}}"#;
    let m = urbit_http_api::messaging::message_of_update("~zod", "chat-1", fact).unwrap();
    assert_eq!(m.index, "/5");
    assert_eq!(m.time_sent, "2015-05-15 00:00:00");
    assert!(urbit_http_api::messaging::message_of_update("~zod", "chat-2", fact).is_none());
    assert!(urbit_http_api::messaging::message_of_update("~zod", "chat-1", "nope").is_none());
}

#[test]
fn dm_names_and_member_lookup() {
    assert_eq!(urbit_http_api::messaging::ship_to_dm_name("~zod"), "dm--~zod");
    let j = Json::parse(r#"{"graph-update":{"keys":[1,2]}}"#).unwrap();
    let keys = j.into_member("graph-update").and_then(|u| u.into_member("keys")).unwrap();
    assert_eq!(keys.dump(), "[1,2]");
    assert!(Json::Null.into_member("keys").is_none());
}

#[test]
fn nodes_sort_stably_by_time() {
    let mk = |index: &str, t: u64| new_node_specified("zod", index, t, &NodeContents::new());
    let nodes = vec![mk("/a", 5), mk("/b", 1), mk("/c", 5), mk("/d", 3), mk("/e", 1)];
    let sorted = urbit_http_api::messaging::sort_by_time(nodes);
    let order: Vec<String> = sorted.iter().map(|n| n.index.clone()).collect();
    assert_eq!(order, vec!["/b", "/e", "/d", "/a", "/c"]);
    assert!(urbit_http_api::messaging::sort_by_time(vec![]).is_empty());
}
