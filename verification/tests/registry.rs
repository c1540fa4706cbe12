use websmq::frame::{incoming_message, Frame};
use websmq::protocol::{serialize_message, Message};
use websmq::registry::{split_topic, ClientRegistry};

fn strings(segments: &[&str]) -> Vec<String> {
    segments.iter().map(|s| s.to_string()).collect()
}

fn sorted(mut v: Vec<u64>) -> Vec<u64> {
    v.sort();
    v
}

#[test]
fn split_topic_at_slashes() {
    assert_eq!(split_topic("sensors/temps/living_room"), strings(&["sensors", "temps", "living_room"]));
    assert_eq!(split_topic("hello"), strings(&["hello"]));
    assert_eq!(split_topic(""), strings(&[""]));
    assert_eq!(split_topic("/a/"), strings(&["", "a", ""]));
    assert_eq!(split_topic("a//b"), strings(&["a", "", "b"]));
    assert_eq!(split_topic("grüße/küche"), strings(&["grüße", "küche"]));
    for topic in ["a/b/c", "", "/", "x//y/", "ä/ö"] {
        assert_eq!(split_topic(topic), topic.split('/').map(|s| s.to_owned()).collect::<Vec<_>>());
    }
}

#[test]
fn publish_goes_to_subscribers_of_the_topic() {
    let mut registry: ClientRegistry<u64> = ClientRegistry::new();
    registry.subscribe(1, "a/b".to_owned());
    registry.subscribe(2, "a/b".to_owned());
    registry.subscribe(3, "a".to_owned());
    assert_eq!(registry.subscriptions_len(), 3);
    assert_eq!(sorted(registry.matching_clients("a/b")), vec![1, 2]);
    assert_eq!(sorted(registry.matching_clients("a")), vec![3]);
    assert!(registry.matching_clients("a/c").is_empty());

    let delivery = registry
        .process_message(Message::Publish("a/b".to_owned(), vec![9]), 3)
        .unwrap();
    assert_eq!(sorted(delivery.recipients), vec![1, 2]);
    assert_eq!(delivery.message, Message::Publish("a/b".to_owned(), vec![9]));
}

#[test]
fn publisher_does_not_receive_its_own_publication() {
    let mut registry: ClientRegistry<u64> = ClientRegistry::new();
    registry.subscribe(1, "a/b".to_owned());
    registry.subscribe(2, "a/b".to_owned());
    let delivery = registry
        .process_message(Message::Publish("a/b".to_owned(), vec![7]), 1)
        .unwrap();
    assert_eq!(delivery.recipients, vec![2]);
    assert_eq!(delivery.message, Message::Publish("a/b".to_owned(), vec![7]));

    // a lone subscriber publishing reaches nobody
    registry.unsubscribe(2, "a/b".to_owned());
    let delivery = registry
        .process_message(Message::Publish("a/b".to_owned(), vec![7]), 1)
        .unwrap();
    assert!(delivery.recipients.is_empty());
}

#[test]
fn subscribing_twice_counts_once() {
    let mut registry: ClientRegistry<u64> = ClientRegistry::default();
    registry.subscribe(1, "t".to_owned());
    registry.subscribe(1, "t".to_owned());
    assert_eq!(registry.subscriptions_len(), 1);
    assert_eq!(registry.matching_clients("t"), vec![1]);
}

#[test]
fn unsubscribe_and_remove_client() {
    let mut registry: ClientRegistry<u64> = ClientRegistry::new();
    registry.subscribe(1, "a".to_owned());
    registry.subscribe(1, "a/b".to_owned());
    registry.subscribe(2, "a/b".to_owned());
    registry.unsubscribe(1, "a/b".to_owned());
    assert_eq!(registry.matching_clients("a/b"), vec![2]);
    assert_eq!(registry.subscriptions_len(), 2);
    // unsubscribing from a topic never subscribed changes nothing
    registry.unsubscribe(2, "zzz".to_owned());
    assert_eq!(registry.subscriptions_len(), 2);
    registry.remove_client(1);
    assert!(registry.matching_clients("a").is_empty());
    assert_eq!(registry.matching_clients("a/b"), vec![2]);
    assert_eq!(registry.subscriptions_len(), 1);
    registry.remove_client(2);
    assert_eq!(registry.subscriptions_len(), 0);
}

#[test]
fn last_will_is_sent_on_disconnect() {
    let mut registry: ClientRegistry<u64> = ClientRegistry::new();
    registry.subscribe(2, "status".to_owned());
    registry.subscribe(3, "status".to_owned());
    registry.subscribe(1, "status".to_owned());
    assert!(registry
        .process_message(Message::LastWill("status".to_owned(), b"gone".to_vec()), 1)
        .is_none());
    // declaring a will changes no subscription
    assert_eq!(registry.subscriptions_len(), 3);
    // a later will replaces the earlier one
    assert!(registry
        .process_message(Message::LastWill("status".to_owned(), b"bye".to_vec()), 1)
        .is_none());

    let delivery = registry.send_last_will(1).unwrap();
    assert_eq!(delivery.message, Message::LastWill("status".to_owned(), b"bye".to_vec()));
    assert_eq!(sorted(delivery.recipients), vec![2, 3]);
    registry.remove_client(1);
    assert_eq!(registry.subscriptions_len(), 2);

    // the will is sent once
    assert!(registry.send_last_will(1).is_none());
    // a client without a will leaves none
    assert!(registry.send_last_will(2).is_none());
}

#[test]
fn last_will_survives_close_and_unknown_topic_reaches_nobody() {
    let mut registry: ClientRegistry<u64> = ClientRegistry::new();
    registry.register_last_will(4, "nobody/listens".to_owned(), vec![0]);
    assert!(registry.process_raw_message(Frame::Close, 4).unwrap().is_none());
    let delivery = registry.send_last_will(4).unwrap();
    assert!(delivery.recipients.is_empty());
    assert_eq!(delivery.message, Message::LastWill("nobody/listens".to_owned(), vec![0]));
}

#[test]
fn raw_messages_drive_the_registry() {
    let mut registry: ClientRegistry<u64> = ClientRegistry::new();
    let subscribe = serialize_message(&Message::Subscribe("t".to_owned())).unwrap();
    assert!(registry
        .process_raw_message(Frame::Binary(subscribe), 5)
        .unwrap()
        .is_none());
    assert_eq!(registry.matching_clients("t"), vec![5]);

    let publish = serialize_message(&Message::Publish("t".to_owned(), b"x".to_vec())).unwrap();
    let delivery = registry
        .process_raw_message(Frame::Binary(publish), 6)
        .unwrap()
        .unwrap();
    assert_eq!(delivery.recipients, vec![5]);

    assert!(registry
        .process_raw_message(Frame::Text("hi".to_owned()), 5)
        .unwrap()
        .is_none());
    assert!(registry.process_raw_message(Frame::Ping(vec![]), 5).unwrap().is_none());
    assert_eq!(registry.subscriptions_len(), 1);

    let err = registry
        .process_raw_message(Frame::Binary(vec![0, 9, b'x']), 5)
        .unwrap_err();
    assert_eq!(err.message(), "topic length exceeds buffer size");
    assert_eq!(registry.subscriptions_len(), 1);

    assert!(registry.process_raw_message(Frame::Close, 5).unwrap().is_none());
    assert_eq!(registry.subscriptions_len(), 0);
    assert!(registry.matching_clients("t").is_empty());
}

#[test]
fn client_side_frames() {
    let bytes = serialize_message(&Message::Publish("t".to_owned(), b"hi".to_vec())).unwrap();
    assert_eq!(
        incoming_message(Frame::Binary(bytes)).unwrap(),
        Some(Message::Publish("t".to_owned(), b"hi".to_vec()))
    );
    assert_eq!(incoming_message(Frame::Text("x".to_owned())).unwrap(), None);
    assert_eq!(incoming_message(Frame::Close).unwrap(), None);
    assert!(incoming_message(Frame::Binary(vec![0, 1])).is_err());
}
