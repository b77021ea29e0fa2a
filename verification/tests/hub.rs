use iot_hub::dispatch::Delivery;
use iot_hub::hub::{ProcessAction, TopicNode};
use iot_hub::router::RouteError;

fn delivered_ids(ds: &[Delivery]) -> Vec<String> {
    ds.iter().map(|d| d.subscriber_id.clone()).collect()
}

#[test]
fn test_topic_nodes() {
    let mut root = TopicNode::Root(Vec::new());
    root.add_topic("floor1.device11.sensor1").unwrap();
    root.add_topic("floor1.device11.sensor2").unwrap();
    root.add_topic("floor2.device21.sensor1").unwrap();
    root.add_topic("floor2.device21.sensor2").unwrap();

    let topics1 = root.find_topics("floor1.device11.sensor1");
    assert_eq!(1, topics1.len());
    let topics2 = root.find_topics("floor2.device21.*");
    assert_eq!(2, topics2.len());

    root.process_action(
        "floor2.device21.sensor1",
        ProcessAction::Subscribe(String::from("sensor1subscriber")),
    )
    .unwrap();
    root.process_action(
        "floor2.device21.sensor2",
        ProcessAction::Subscribe(String::from("sensor2subscriber")),
    )
    .unwrap();
    root.process_action(
        "floor2.device21",
        ProcessAction::Subscribe(String::from("device21subscriber")),
    )
    .unwrap();
    root.process_action(
        "floor2.device21.*",
        ProcessAction::SendMessage(String::from("Hello World!")),
    )
    .unwrap();
}

#[test]
fn topic_nodes_are_named_by_their_paths() {
    let mut root = TopicNode::Root(Vec::new());
    root.add_topic("floor1.device11.sensor1").unwrap();
    let topics = root.find_topics("floor1.device11.sensor1");
    assert_eq!(topics, vec![String::from("floor1.device11.sensor1")]);
    let mid = root.find_topics("floor1.device11");
    assert_eq!(mid, vec![String::from("floor1.device11")]);
}

#[test]
fn wildcard_query_and_unsubscribe_narrow_the_fanout() {
    let mut root = TopicNode::Root(Vec::new());
    root.add_topic("floor2.device21.sensor1").unwrap();
    root.add_topic("floor2.device21.sensor2").unwrap();
    root.process_action(
        "floor2.device21.sensor1",
        ProcessAction::Subscribe(String::from("S1")),
    )
    .unwrap();
    root.process_action(
        "floor2.device21.sensor2",
        ProcessAction::Subscribe(String::from("S2")),
    )
    .unwrap();

    let ds = root
        .process_action(
            "floor2.device21.*",
            ProcessAction::SendMessage(String::from("m")),
        )
        .unwrap();
    let mut got = delivered_ids(&ds);
    got.sort();
    assert_eq!(got, vec![String::from("S1"), String::from("S2")]);

    root.process_action(
        "floor2.device21.sensor1",
        ProcessAction::UnSubscribe(String::from("S1")),
    )
    .unwrap();
    let ds2 = root
        .process_action(
            "floor2.device21.*",
            ProcessAction::SendMessage(String::from("m")),
        )
        .unwrap();
    assert_eq!(delivered_ids(&ds2), vec![String::from("S2")]);
}

#[test]
fn deliveries_carry_topic_and_message() {
    let mut root = TopicNode::Root(Vec::new());
    root.add_topic("a.b").unwrap();
    root.process_action("a.b", ProcessAction::Subscribe(String::from("S")))
        .unwrap();
    let ds = root
        .process_action("a.b", ProcessAction::SendMessage(String::from("hi")))
        .unwrap();
    assert_eq!(1, ds.len());
    assert_eq!("S", ds[0].subscriber_id);
    assert_eq!("a.b", ds[0].topic);
    assert_eq!("hi", ds[0].message);
}

#[test]
fn publishes_on_one_topic_keep_their_order() {
    let mut root = TopicNode::Root(Vec::new());
    root.add_topic("a.b").unwrap();
    root.process_action("a.b", ProcessAction::Subscribe(String::from("S")))
        .unwrap();
    let mut log: Vec<String> = Vec::new();
    for msg in ["m1", "m2"] {
        let ds = root
            .process_action("a.b", ProcessAction::SendMessage(String::from(msg)))
            .unwrap();
        for d in &ds {
            log.push(d.message.clone());
        }
    }
    assert_eq!(log, vec![String::from("m1"), String::from("m2")]);
}

#[test]
fn hub_subscribe_twice_delivers_once() {
    let mut root = TopicNode::Root(Vec::new());
    root.add_topic("a.b").unwrap();
    root.process_action("a.b", ProcessAction::Subscribe(String::from("S")))
        .unwrap();
    root.process_action("a.b", ProcessAction::Subscribe(String::from("S")))
        .unwrap();
    let ds = root
        .process_action("a.b", ProcessAction::SendMessage(String::from("m")))
        .unwrap();
    assert_eq!(1, ds.len());
}

#[test]
fn hub_rejects_wildcard_subscriptions_and_topics() {
    let mut root = TopicNode::Root(Vec::new());
    root.add_topic("a.b").unwrap();
    assert_eq!(
        root.add_topic("a.*").unwrap_err(),
        RouteError::InvalidTopic
    );
    assert_eq!(
        root.process_action("a.*", ProcessAction::Subscribe(String::from("S")))
            .unwrap_err(),
        RouteError::InvalidTopic
    );
    assert_eq!(
        root.process_action("a.c", ProcessAction::Subscribe(String::from("S")))
            .unwrap_err(),
        RouteError::RouteNotFound
    );
}

#[test]
fn leaf_nodes_apply_actions_to_themselves() {
    let mut leaf = TopicNode::new(String::from("a.b"));
    leaf.process_action("ignored", ProcessAction::Subscribe(String::from("S")))
        .unwrap();
    let ds = leaf
        .process_action("ignored", ProcessAction::SendMessage(String::from("m")))
        .unwrap();
    assert_eq!(1, ds.len());
    assert_eq!("S", ds[0].subscriber_id);
    assert_eq!("a.b", ds[0].topic);
}
