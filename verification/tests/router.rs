use iot_hub::router::{RouteError, Router, Subscriber};

fn sub(channel: &str, id: &str) -> Subscriber {
    Subscriber::new(String::from(channel), String::from(id))
}

fn ids(subs: &[Subscriber]) -> Vec<String> {
    subs.iter().map(|s| s.subscriber_id.clone()).collect()
}

#[test]
fn router_test_add_subscriber_and_matched() {
    let mut router = Router::new();

    router
        .add_subscriber(Subscriber {
            channel_name: String::from("test.channel1"),
            subscriber_id: String::from("127.0.0.1:5014"),
        })
        .unwrap();
    router
        .add_subscriber(Subscriber {
            channel_name: String::from("test.*"),
            subscriber_id: String::from("127.0.0.1:5015"),
        })
        .unwrap();
    let result = router.match_subscribers("test.channel1");
    assert!(result.is_ok());
    let subscribers = result.unwrap();
    // Both the literal pattern and the wildcard pattern match the topic.
    assert_eq!(2, subscribers.len());
    let ids = ids(&subscribers);
    assert!(ids.contains(&String::from("127.0.0.1:5014")));
    assert!(ids.contains(&String::from("127.0.0.1:5015")));
}

#[test]
fn route_test_add_subscriber_and_matched() {
    let mut router = Router::new();
    router
        .add_subscriber(sub("test.channel", "127.0.0.1:5014"))
        .unwrap();
    let subscribers = router.match_subscribers("test.channel").unwrap();
    assert_eq!(1, subscribers.len());
    assert_eq!("test.channel", subscribers[0].channel_name);
    assert_eq!("127.0.0.1:5014", subscribers[0].subscriber_id);
}

#[test]
fn exact_pattern_matches_its_own_topic() {
    let mut router = Router::new();
    router
        .add_subscriber(sub("floor1.device11.sensor1", "s"))
        .unwrap();
    let subs = router.match_subscribers("floor1.device11.sensor1").unwrap();
    assert_eq!(1, subs.len());
    assert_eq!("s", subs[0].subscriber_id);
}

#[test]
fn single_wildcard_is_insensitive_to_one_token() {
    let mut router = Router::new();
    router.add_subscriber(sub("a.*.c", "w")).unwrap();
    let at_x = router.match_subscribers("a.x.c").unwrap();
    let at_y = router.match_subscribers("a.y.c").unwrap();
    assert_eq!(ids(&at_x), vec![String::from("w")]);
    assert_eq!(ids(&at_y), vec![String::from("w")]);
    // The wildcard consumes exactly one token.
    assert!(router.match_subscribers("a.c").unwrap().is_empty());
    assert!(router.match_subscribers("a.x.y.c").unwrap().is_empty());
}

#[test]
fn multi_wildcard_matches_any_deeper_topic() {
    let mut router = Router::new();
    router.add_subscriber(sub("floor2.>", "s3")).unwrap();
    let found = router.match_subscribers("floor2.device21.sensor1").unwrap();
    assert!(ids(&found).contains(&String::from("s3")));
    let deeper = router.match_subscribers("floor2.a.b.c.d").unwrap();
    assert!(ids(&deeper).contains(&String::from("s3")));
    // `>` needs at least one token after the prefix.
    assert!(router.match_subscribers("floor2").unwrap().is_empty());
}

#[test]
fn publish_with_wildcard_topic_is_rejected() {
    let mut router = Router::new();
    router.add_subscriber(sub("floor1.device11.a", "s")).unwrap();
    let r = router.match_subscribers("floor1.device11.*");
    assert_eq!(r.unwrap_err(), RouteError::InvalidTopic);
    let r2 = router.match_subscribers("floor1.>");
    assert_eq!(r2.unwrap_err(), RouteError::InvalidTopic);
}

#[test]
fn subscribing_twice_keeps_one_entry() {
    let mut router = Router::new();
    router.add_subscriber(sub("a.b", "s")).unwrap();
    router.add_subscriber(sub("a.b", "s")).unwrap();
    let subs = router.match_subscribers("a.b").unwrap();
    assert_eq!(1, subs.len());
}

#[test]
fn unsubscribe_stops_matching() {
    let mut router = Router::new();
    router.add_subscriber(sub("a.b", "s")).unwrap();
    router
        .remove_subscriber("a.b", &String::from("s"))
        .unwrap();
    assert!(router.match_subscribers("a.b").unwrap().is_empty());
}

#[test]
fn unsubscribe_of_absent_identity_is_a_no_op() {
    let mut router = Router::new();
    router.add_subscriber(sub("a.b", "s")).unwrap();
    router
        .remove_subscriber("a.b", &String::from("t"))
        .unwrap();
    assert_eq!(1, router.match_subscribers("a.b").unwrap().len());
}

#[test]
fn unsubscribe_of_absent_route_is_route_not_found() {
    let mut router = Router::new();
    router.add_subscriber(sub("a.b", "s")).unwrap();
    let r = router.remove_subscriber("a.c", &String::from("s"));
    assert_eq!(r.unwrap_err(), RouteError::RouteNotFound);
}

#[test]
fn empty_tokens_are_invalid_topics() {
    let mut router = Router::new();
    assert_eq!(
        router.add_subscriber(sub("a..b", "s")).unwrap_err(),
        RouteError::InvalidTopic
    );
    assert_eq!(
        router.add_subscriber(sub(".a", "s")).unwrap_err(),
        RouteError::InvalidTopic
    );
    assert_eq!(
        router.add_subscriber(sub("a.", "s")).unwrap_err(),
        RouteError::InvalidTopic
    );
    assert_eq!(
        router
            .remove_subscriber("a..b", &String::from("s"))
            .unwrap_err(),
        RouteError::InvalidTopic
    );
}

#[test]
fn greater_must_stand_last_in_a_pattern() {
    let mut router = Router::new();
    assert_eq!(
        router.add_subscriber(sub(">.a", "s")).unwrap_err(),
        RouteError::InvalidPattern
    );
    assert_eq!(
        router.add_subscriber(sub("a.>.b", "s")).unwrap_err(),
        RouteError::InvalidPattern
    );
    // A final `>` is fine.
    router.add_subscriber(sub("a.>", "s")).unwrap();
}

#[test]
fn no_match_is_an_empty_set_not_an_error() {
    let mut router = Router::new();
    router.add_subscriber(sub("a.b", "s")).unwrap();
    let r = router.match_subscribers("c.d").unwrap();
    assert!(r.is_empty());
}

#[test]
fn publish_delivers_topic_and_payload_to_each_match() {
    let mut router = Router::new();
    router.add_subscriber(sub("a.b", "s1")).unwrap();
    router.add_subscriber(sub("a.*", "s2")).unwrap();
    let ds = router
        .publish("a.b", &String::from("hello"))
        .unwrap();
    assert_eq!(2, ds.len());
    for d in &ds {
        assert_eq!("a.b", d.topic);
        assert_eq!("hello", d.message);
    }
    let mut got: Vec<String> = ds.iter().map(|d| d.subscriber_id.clone()).collect();
    got.sort();
    assert_eq!(got, vec![String::from("s1"), String::from("s2")]);
    assert_eq!(
        router
            .publish("a.*", &String::from("hello"))
            .unwrap_err(),
        RouteError::InvalidTopic
    );
}

#[test]
fn duplicate_identities_across_patterns_are_reported_once() {
    let mut router = Router::new();
    router.add_subscriber(sub("a.b", "s")).unwrap();
    router.add_subscriber(sub("a.*", "s")).unwrap();
    let subs = router.match_subscribers("a.b").unwrap();
    assert_eq!(1, subs.len());
    assert_eq!("s", subs[0].subscriber_id);
}
