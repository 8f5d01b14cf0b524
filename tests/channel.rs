use urbit_http_api::channel::Channel;
use urbit_http_api::error::UrbitAPIError;
use urbit_http_api::json::Json;
use urbit_http_api::subscription::Subscription;

fn field<'a>(j: &'a Json, key: &str) -> &'a Json {
    j.get(key).unwrap()
}

fn action(body: &Json) -> &Json {
    match body {
        Json::Array(a) => &a[0],
        _ => panic!("not an envelope"),
    }
}

fn open() -> Channel {
    Channel::new("http://0.0.0.0:8080", "zod", "1617040800", 204).unwrap()
}

#[test]
fn open_action_carries_id_one() {
    let body = Channel::open_action("zod");
    let a = action(&body);
    assert_eq!(field(a, "id").as_u64(), Some(1));
    assert_eq!(field(a, "action").as_str().unwrap(), "poke");
    assert_eq!(field(a, "app").as_str().unwrap(), "hood");
    assert_eq!(field(a, "ship").as_str().unwrap(), "zod");
}

#[test]
fn channel_opens_only_on_no_content() {
    let c = open();
    assert_eq!(c.message_id_count(), 2);
    assert_eq!(c.url(), "http://0.0.0.0:8080/~/channel/1617040800");
    assert!(c.subscription_list().is_empty());
    assert_eq!(
        Channel::new("http://0.0.0.0:8080", "zod", "1", 500).unwrap_err(),
        UrbitAPIError::FailedToCreateNewChannel
    );
}

#[test]
fn ids_rise_by_one_and_stop_after_delete() {
    let mut c = open();
    assert_eq!(c.get_and_raise_message_id_count(), Some(2));
    assert_eq!(c.get_and_raise_message_id_count(), Some(3));
    let poke = c.poke("hood", "helm-hi", Json::from_str("A poke has been made")).unwrap();
    assert_eq!(field(action(&poke), "id").as_u64(), Some(4));
    assert_eq!(field(action(&poke), "mark").as_str().unwrap(), "helm-hi");
    let del = c.delete_channel().unwrap();
    assert_eq!(field(action(&del), "id").as_u64(), Some(5));
    assert_eq!(field(action(&del), "action").as_str().unwrap(), "delete");
    assert!(c.is_deleted());
    assert_eq!(c.get_and_raise_message_id_count(), None);
    assert!(c.poke("hood", "helm-hi", Json::Null).is_none());
    assert!(c.delete_channel().is_none());
    assert_eq!(c.message_id_count(), 6);
}

#[test]
fn subscribe_then_deliver_an_event() {
    let mut c = open();
    let (id, body) = c.subscribe_action("graph-store", "/updates").unwrap();
    assert_eq!(id, 2);
    assert_eq!(field(action(&body), "action").as_str().unwrap(), "subscribe");
    assert_eq!(field(action(&body), "path").as_str().unwrap(), "/updates");
    assert_eq!(c.create_new_subscription(id, "graph-store", "/updates", 204), Ok(2));
    assert_eq!(c.subscription_list()[0].creation_id, 2);
    let data = r#"{"id":2,"json":{"graph-update":{"add-nodes":{"nodes":{}}}}}"#;
    let ack = c.process_event("7", data).unwrap();
    assert_eq!(c.subscription_list()[0].message_list.len(), 1);
    let a = action(&ack);
    assert_eq!(field(a, "action").as_str().unwrap(), "ack");
    assert_eq!(field(a, "event-id").as_u64(), Some(7));
    assert_eq!(field(a, "id").as_u64(), Some(3));
    let fact = c.pop_message(0).unwrap();
    assert_eq!(fact, r#"{"graph-update":{"add-nodes":{"nodes":{}}}}"#);
    assert_eq!(c.pop_message(0), None);
}

#[test]
fn events_for_nobody_are_dropped_without_ack() {
    let mut c = open();
    let (id, _) = c.subscribe_action("graph-store", "/updates").unwrap();
    c.create_new_subscription(id, "graph-store", "/updates", 204).unwrap();
    assert!(c.process_event("1", r#"{"id":9,"json":{"a":1}}"#).is_none());
    assert!(c.process_event("1", r#"{"id":2,"json":null}"#).is_none());
    assert!(c.process_event("1", "not json").is_none());
    assert!(c.process_event("x", r#"{"id":2,"json":{"a":1}}"#).is_none());
    assert_eq!(c.subscription_list()[0].message_list.len(), 0);
    assert_eq!(c.message_id_count(), 3);
}

#[test]
fn failed_subscription_is_not_recorded() {
    let mut c = open();
    let (id, _) = c.subscribe_action("chat-view", "/primary").unwrap();
    assert_eq!(
        c.create_new_subscription(id, "chat-view", "/primary", 500),
        Err(UrbitAPIError::FailedToCreateNewSubscription)
    );
    assert!(c.subscription_list().is_empty());
}

#[test]
fn find_and_unsubscribe() {
    let mut c = open();
    c.create_new_subscription(2, "chat-view", "/primary", 204).unwrap();
    c.create_new_subscription(3, "graph-store", "/updates", 204).unwrap();
    assert_eq!(c.find_subscription("graph-store", "/updates"), Some(1));
    assert_eq!(c.find_subscription("graph-store", "/keys"), None);
    assert_eq!(c.unsubscribe("chat-view", "/primary"), Some(true));
    assert_eq!(c.unsubscribe("chat-view", "/primary"), None);
    assert_eq!(c.subscription_list().len(), 1);
    assert_eq!(c.subscription_list()[0].app, "graph-store");
}

#[test]
fn subscription_queue_is_fifo() {
    let mut s = Subscription {
        channel_uid: "1".to_string(),
        creation_id: 4,
        app: "a".to_string(),
        path: "/p".to_string(),
        message_list: vec![],
    };
    assert_eq!(s.add_to_message_list(r#"{"id":4,"json":1}"#), Some(1));
    assert_eq!(s.add_to_message_list(r#"{"id":4,"json":"two"}"#), Some(2));
    assert_eq!(s.add_to_message_list(r#"{"id":5,"json":3}"#), None);
    assert_eq!(s.add_to_message_list("{"), None);
    assert_eq!(s.pop_message(), Some("1".to_string()));
    assert_eq!(s.pop_message(), Some("\"two\"".to_string()));
    assert_eq!(s.pop_message(), None);
}

#[test]
fn several_events_get_consecutive_ack_ids_and_queue_in_order() {
    let mut c = open();
    let (a, _) = c.subscribe_action("graph-store", "/updates").unwrap();
    c.create_new_subscription(a, "graph-store", "/updates", 204).unwrap();
    let (b, _) = c.subscribe_action("chat-view", "/primary").unwrap();
    c.create_new_subscription(b, "chat-view", "/primary", 204).unwrap();
    let first = c.process_event("10", r#"{"id":2,"json":"one"}"#).unwrap();
    assert!(c.process_event("11", r#"{"id":99,"json":"lost"}"#).is_none());
    let second = c.process_event("12", r#"{"id":3,"json":"two"}"#).unwrap();
    let third = c.process_event("13", r#"{"id":2,"json":"three"}"#).unwrap();
    assert_eq!(field(action(&first), "id").as_u64(), Some(4));
    assert_eq!(field(action(&second), "id").as_u64(), Some(5));
    assert_eq!(field(action(&third), "id").as_u64(), Some(6));
    assert_eq!(field(action(&third), "event-id").as_u64(), Some(13));
    assert_eq!(c.subscription_list()[0].message_list, vec!["\"one\"", "\"three\""]);
    assert_eq!(c.subscription_list()[1].message_list, vec!["\"two\""]);
}

#[test]
fn overlong_data_is_not_parsed() {
    let mut c = open();
    c.create_new_subscription(2, "graph-store", "/updates", 204).unwrap();
    let long = format!(r#"{{"id":2,"json":0.{}}}"#, "0".repeat(32769));
    assert!(c.process_event("1", &long).is_none());
    assert!(c.subscription_list()[0].message_list.is_empty());
    assert!(Json::parse(&long).is_none());
}

#[test]
fn long_events_are_delivered() {
    let mut c = open();
    c.create_new_subscription(2, "graph-store", "/updates", 204).unwrap();
    let text = "x".repeat(100_000);
    let data = format!(r#"{{"id":2,"json":{{"text":"{}","n":1.{}}}}}"#, text, "5".repeat(32767));
    assert!(data.len() > 132_000);
    assert!(c.process_event("1", &data).is_some());
    assert_eq!(c.subscription_list()[0].message_list.len(), 1);
    assert!(c.subscription_list()[0].message_list[0].contains(&text));
}
