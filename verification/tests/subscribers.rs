//! Who is connected, and who listens to what.

use cangling_broker::grpc_conn::GrpcClientRegistry;
use cangling_broker::mqtt::ClientRegistry;
use cangling_broker::subscribers::{InflightAcks, TopicSubscribers};

#[test]
fn tracks_live_session_metadata() {
    let mut subscribers = TopicSubscribers::default();
    let tx = 1;
    subscribers.add("jobs", "c1", tx, "127.0.0.1:4321", "grpc");
    assert_eq!(subscribers.count("jobs"), 1);
    assert!(subscribers.is_live("jobs", "c1"));
    let sessions = subscribers.sessions();
    assert_eq!(sessions.len(), 1);
    assert_eq!(sessions[0].id, "c1");
    assert_eq!(sessions[0].topic, "jobs");
    assert_eq!(sessions[0].peer, "127.0.0.1:4321");
    assert_eq!(sessions[0].protocol, "grpc");
    assert!(!sessions[0].connected_at.is_empty());
    subscribers.remove("jobs", "c1");
    assert!(subscribers.sessions().is_empty());
}

#[test]
fn hash_filter_covers_child_topics() {
    let mut subscribers = TopicSubscribers::default();
    let tx = 1;
    subscribers.add("sensor/#", "mqtt:c1", tx, "127.0.0.1:1", "mqtt");
    assert!(subscribers.covers("sensor"));
    assert!(subscribers.covers("sensor/temp"));
    assert!(subscribers.covers("sensor/a/b"));
    assert!(!subscribers.covers("other"));
    assert_eq!(subscribers.matching_count("sensor/temp"), 1);
    assert_eq!(subscribers.count("sensor/temp"), 0);
    assert_eq!(subscribers.count("sensor/#"), 1);
}

#[test]
fn registry_tracks_and_updates_identity() {
    let mut registry = GrpcClientRegistry::default();
    let id = registry.insert("10.0.0.8:9".into());
    registry.touch("10.0.0.8:9", "python/0.1.34", "api");
    let clients = registry.clients();
    assert_eq!(clients.len(), 1);
    assert_eq!(clients[0].peer, "10.0.0.8:9");
    assert_eq!(clients[0].version, "python/0.1.34");
    assert_eq!(clients[0].host, "api");
    registry.remove(id);
    assert!(registry.clients().is_empty());
}

#[test]
fn a_session_is_sent_a_message_once() {
    let mut subscribers = TopicSubscribers::default();
    subscribers.add("a/#", "s", 1, "p", "mqtt");
    subscribers.add("a/+", "s", 1, "p", "mqtt");
    subscribers.add("a/b", "t", 2, "q", "grpc");
    let mut senders = subscribers.matching_senders("a/b");
    senders.sort();
    assert_eq!(senders, vec![("s".to_string(), 1), ("t".to_string(), 2)]);
    assert_eq!(subscribers.matching_count("a/c"), 1);
    let mut topics = subscribers.topics();
    topics.sort();
    assert_eq!(topics, vec!["a/#", "a/+", "a/b"]);
}

#[test]
fn sessions_come_in_order() {
    let mut subscribers = TopicSubscribers::default();
    subscribers.add("b", "1", 1, "p", "grpc");
    subscribers.add("a", "2", 2, "p", "grpc");
    subscribers.add_with_identity("a", "1", 3, "p", "grpc", "go/1", "host");
    let listed: Vec<(String, String)> = subscribers
        .sessions()
        .into_iter()
        .map(|session| (session.topic, session.id))
        .collect();
    let expected: Vec<(String, String)> = [("a", "1"), ("a", "2"), ("b", "1")]
        .iter()
        .map(|(topic, id)| (topic.to_string(), id.to_string()))
        .collect();
    assert_eq!(listed, expected);
    assert_eq!(subscribers.sessions()[0].version, "go/1");
    assert_eq!(subscribers.sessions()[0].host, "host");
}

#[test]
fn an_acknowledgement_counts_once() {
    let mut acks = InflightAcks::default();
    acks.register("m".into(), "l".into());
    assert!(acks.complete("other", "l", true, String::new()).is_none());
    assert!(acks.complete("m", "k", true, String::new()).is_none());
    let decision = acks.complete("m", "l", false, "no".into()).unwrap();
    assert!(!decision.success);
    assert_eq!(decision.error, "no");
    assert!(acks.complete("m", "l", true, String::new()).is_none());
    acks.register("m".into(), "l2".into());
    acks.cancel("l2");
    assert!(acks.complete("m", "l2", true, String::new()).is_none());
}

#[test]
fn a_second_connection_replaces_the_first() {
    let mut registry = ClientRegistry::default();
    let first = registry.connect("dev".into(), 1, "p:1".into(), "mqtt", "3.1.1".into());
    assert_eq!(first, None);
    let second = registry.connect("dev".into(), 2, "p:2".into(), "mqtt-ws", "3.1.1".into());
    assert_eq!(second, Some(1));
    // The first one leaves late: it takes nothing away.
    registry.remove_if("dev", 1);
    let clients = registry.clients();
    assert_eq!(clients.len(), 1);
    assert_eq!(clients[0].peer, "p:2");
    assert_eq!(clients[0].transport, "mqtt-ws");
    registry.remove_if("dev", 2);
    assert!(registry.clients().is_empty());
    assert_eq!(registry.insert("dev".into(), 3), None);
}

#[test]
fn grpc_clients_come_in_order() {
    let mut registry = GrpcClientRegistry::default();
    let first = registry.insert_at("b:1".into(), "t1".into());
    let second = registry.insert_at("a:1".into(), "t2".into());
    assert_ne!(first, second);
    registry.touch("a:1", "", "");
    let peers: Vec<String> = registry.clients().into_iter().map(|client| client.peer).collect();
    assert_eq!(peers, vec!["a:1", "b:1"]);
    registry.remove(first);
    assert_eq!(registry.clients().len(), 1);
    assert_eq!(registry.clients()[0].connected_at, "t2");
}
