//! What the status page tells.

use cangling_broker::clients::connected_clients;
use cangling_broker::grpc_conn::GrpcClientInfo;
use cangling_broker::json::Attributes;
use cangling_broker::model::{ConsumerSnapshot, TopicSnapshot};
use cangling_broker::mqtt::MqttClientInfo;
use cangling_broker::paging::StoredMessage;
use cangling_broker::status::{
    broker_status, dashboard_html, is_open_health_path, may_pass, merge_live_sessions,
    to_message_body, MESSAGE_PREVIEW_BYTES,
};
use cangling_broker::subscribers::{SessionInfo, TopicSubscribers};

fn attributes(pairs: &[(&str, &str)]) -> Attributes {
    let mut out = Attributes::new();
    for (name, value) in pairs {
        out.set(name.to_string(), value.to_string());
    }
    out
}

#[test]
fn connected_clients_group_streams_by_peer() {
    let sessions = vec![
        SessionInfo {
            id: "c1".into(),
            topic: "jobs".into(),
            peer: "127.0.0.1:9".into(),
            connected_at: "2026-08-16T00:00:02Z".into(),
            protocol: "grpc",
            version: "java/0.1.29".into(),
            host: String::new(),
        },
        SessionInfo {
            id: "c2".into(),
            topic: "logs".into(),
            peer: "127.0.0.1:9".into(),
            connected_at: "2026-08-16T00:00:01Z".into(),
            protocol: "grpc",
            version: "java/0.1.29".into(),
            host: String::new(),
        },
        SessionInfo {
            id: "c3".into(),
            topic: "alerts".into(),
            peer: "10.0.0.2:8".into(),
            connected_at: "2026-08-16T00:00:03Z".into(),
            protocol: "mqtt",
            version: "3.1.1".into(),
            host: String::new(),
        },
    ];
    let topics = vec![TopicSnapshot {
        name: "jobs".into(),
        consumers: vec![ConsumerSnapshot {
            id: "c1".into(),
            name: "java-s0".into(),
            last_seen_at: "2026-08-16T00:01:00Z".into(),
            live: true,
            attributes: attributes(&[("host", "worker-1")]),
        }],
        ..TopicSnapshot::default()
    }];
    let clients = connected_clients(&sessions, &[], &[], &topics);
    assert_eq!(clients.len(), 2);
    assert_eq!(clients[0].peer, "10.0.0.2:8");
    assert_eq!(clients[0].protocol, "mqtt");
    assert_eq!(clients[0].streams, 1);
    assert_eq!(clients[1].peer, "127.0.0.1:9");
    assert_eq!(clients[1].streams, 2);
    assert_eq!(clients[1].connected_at, "2026-08-16T00:00:01Z");
    assert_eq!(clients[1].last_seen_at, "2026-08-16T00:01:00Z");
    assert_eq!(clients[1].subscriptions[0].name, "java-s0");
    assert_eq!(
        clients[1].subscriptions[0]
            .attributes
            .get("host")
            .unwrap(),
        "worker-1"
    );
    assert_eq!(clients[1].subscriptions[1].topic, "logs");
    assert_eq!(clients[0].version, "3.1.1");
    assert_eq!(clients[1].version, "java/0.1.29");
    assert_eq!(clients[1].host, "worker-1");
}

#[test]
fn docker_nat_peers_split_by_host() {
    let sessions = vec![
        SessionInfo {
            id: "c1".into(),
            topic: "jobs".into(),
            peer: "172.21.0.1:41001".into(),
            connected_at: "2026-08-16T00:00:02Z".into(),
            protocol: "grpc",
            version: "java/0.1.29".into(),
            host: "api".into(),
        },
        SessionInfo {
            id: "c2".into(),
            topic: "jobs".into(),
            peer: "172.21.0.1:41002".into(),
            connected_at: "2026-08-16T00:00:01Z".into(),
            protocol: "grpc",
            version: "java/0.1.29".into(),
            host: "worker".into(),
        },
        SessionInfo {
            id: "c3".into(),
            topic: "logs".into(),
            peer: "172.21.0.1:41003".into(),
            connected_at: "2026-08-16T00:00:03Z".into(),
            protocol: "grpc",
            version: "java/0.1.29".into(),
            host: "worker".into(),
        },
    ];
    let clients = connected_clients(&sessions, &[], &[], &[]);
    assert_eq!(clients.len(), 2);
    assert_eq!(clients[0].host, "api");
    assert_eq!(clients[0].streams, 1);
    assert_eq!(clients[1].host, "worker");
    assert_eq!(clients[1].streams, 2);
}

#[test]
fn client_version_falls_back_to_register_attribute() {
    let sessions = vec![SessionInfo {
        id: "c1".into(),
        topic: "jobs".into(),
        peer: "127.0.0.1:9".into(),
        connected_at: "2026-08-16T00:00:02Z".into(),
        protocol: "grpc",
        version: String::new(),
        host: String::new(),
    }];
    let topics = vec![TopicSnapshot {
        name: "jobs".into(),
        consumers: vec![ConsumerSnapshot {
            id: "c1".into(),
            name: "java-s0".into(),
            last_seen_at: "2026-08-16T00:01:00Z".into(),
            live: true,
            attributes: attributes(&[("version", "python/0.1.29")]),
        }],
        ..TopicSnapshot::default()
    }];
    let clients = connected_clients(&sessions, &[], &[], &topics);
    assert_eq!(clients.len(), 1);
    assert_eq!(clients[0].version, "python/0.1.29");
    assert_eq!(clients[0].subscriptions[0].version, "python/0.1.29");
}

#[test]
fn websocket_subscribe_adds_topic_to_list() {
    let mut topics = vec![TopicSnapshot {
        name: "jobs".into(),
        accepted: 3,
        ..TopicSnapshot::default()
    }];
    let sessions = vec![SessionInfo {
        id: "mqtt:browser-1".into(),
        topic: "building/#".into(),
        peer: "10.0.0.8:1".into(),
        connected_at: "2026-08-16T00:00:04Z".into(),
        protocol: "mqtt-ws",
        version: "3.1.1".into(),
        host: String::new(),
    }];
    merge_live_sessions(&mut topics, &sessions);
    assert_eq!(topics.len(), 2);
    let live = topics.iter().find(|topic| topic.name == "building/#").unwrap();
    assert_eq!(live.delivery, "broadcast");
    assert_eq!(live.persistence, "persistent");
    assert_eq!(live.consumers.len(), 1);
    assert!(live.consumers[0].live);
    assert_eq!(live.consumers[0].name, "browser-1");
    assert_eq!(
        live.consumers[0].attributes.get("protocol").map(String::as_str),
        Some("mqtt-ws")
    );
    assert_eq!(topics.iter().find(|topic| topic.name == "jobs").unwrap().accepted, 3);

    let mut published = vec![TopicSnapshot {
        name: "/ibuser/1/dRueErAe".into(),
        accepted: 10,
        ..TopicSnapshot::default()
    }];
    let hash_sessions = vec![SessionInfo {
        id: "mqtt:browser-1".into(),
        topic: "/ibuser/1/#".into(),
        peer: "10.0.0.8:1".into(),
        connected_at: "2026-08-16T00:00:04Z".into(),
        protocol: "mqtt-ws",
        version: "3.1.1".into(),
        host: String::new(),
    }];
    merge_live_sessions(&mut published, &hash_sessions);
    let row = published
        .iter()
        .find(|topic| topic.name == "/ibuser/1/dRueErAe")
        .unwrap();
    assert_eq!(row.consumers.len(), 1);
    assert_eq!(row.consumers[0].name, "browser-1");
}

fn session(id: &str, topic: &str, peer: &str) -> SessionInfo {
    SessionInfo {
        id: id.into(),
        topic: topic.into(),
        peer: peer.into(),
        connected_at: "2026-08-16T00:00:04Z".into(),
        protocol: "grpc",
        version: "go/1".into(),
        host: String::new(),
    }
}

#[test]
fn merging_live_sessions_twice_adds_nothing() {
    let mut topics = vec![TopicSnapshot {
        name: "jobs".into(),
        accepted: 3,
        ..TopicSnapshot::default()
    }];
    let sessions = vec![
        session("c1", "jobs", "10.0.0.1:1"),
        session("c2", "jobs", "10.0.0.2:1"),
        session("c3", "logs/#", "10.0.0.3:1"),
    ];
    merge_live_sessions(&mut topics, &sessions);
    let once: Vec<(String, Vec<String>)> = topics
        .iter()
        .map(|topic| {
            let ids = topic.consumers.iter().map(|item| item.id.clone()).collect();
            (topic.name.clone(), ids)
        })
        .collect();
    assert_eq!(once.len(), 2);
    assert_eq!(once[0].0, "jobs");
    assert_eq!(once[0].1, vec!["c1", "c2"]);
    assert_eq!(once[1].1, vec!["c3"]);
    merge_live_sessions(&mut topics, &sessions);
    let twice: Vec<(String, Vec<String>)> = topics
        .iter()
        .map(|topic| {
            let ids = topic.consumers.iter().map(|item| item.id.clone()).collect();
            (topic.name.clone(), ids)
        })
        .collect();
    assert_eq!(once, twice);
}

#[test]
fn a_session_of_no_connection_is_listed_once() {
    let sessions = vec![
        session("c1", "jobs", ""),
        session("c2", "jobs", "10.0.0.2:1"),
        session("c3", "logs", ""),
    ];
    let clients = connected_clients(&sessions, &[], &[], &[]);
    let count = |id: &str, topic: &str| {
        clients
            .iter()
            .flat_map(|client| client.subscriptions.iter())
            .filter(|item| item.id == id && item.topic == topic)
            .count()
    };
    assert_eq!(count("c1", "jobs"), 1);
    assert_eq!(count("c2", "jobs"), 1);
    assert_eq!(count("c3", "logs"), 1);
    let streams: u64 = clients.iter().map(|client| client.streams as u64).sum();
    assert_eq!(streams, 3);
}

#[test]
fn mqtt_websocket_connect_appears_without_subscribe() {
    let mqtt_clients = vec![MqttClientInfo {
        client_id: "browser-1".into(),
        peer: "10.0.0.8:44321".into(),
        transport: "mqtt-ws",
        connected_at: "2026-08-16T00:00:04Z".into(),
        version: "3.1.1".into(),
    }];
    let clients = connected_clients(&[], &mqtt_clients, &[], &[]);
    assert_eq!(clients.len(), 1);
    assert_eq!(clients[0].protocol, "mqtt-ws");
    assert_eq!(clients[0].client_id, "browser-1");
    assert_eq!(clients[0].peer, "10.0.0.8:44321");
    assert_eq!(clients[0].version, "3.1.1");
    assert_eq!(clients[0].streams, 0);
    assert!(clients[0].subscriptions.is_empty());
}

#[test]
fn grpc_tcp_connect_appears_without_subscribe() {
    let grpc_clients = vec![GrpcClientInfo {
        peer: "172.21.0.1:41001".into(),
        connected_at: "2026-08-16T00:00:04Z".into(),
        version: "python/0.1.34".into(),
        host: "api".into(),
    }];
    let clients = connected_clients(&[], &[], &grpc_clients, &[]);
    assert_eq!(clients.len(), 1);
    assert_eq!(clients[0].protocol, "grpc");
    assert_eq!(clients[0].peer, "172.21.0.1:41001");
    assert_eq!(clients[0].host, "api");
    assert_eq!(clients[0].version, "python/0.1.34");
    assert_eq!(clients[0].streams, 0);
    assert!(clients[0].subscriptions.is_empty());
}

#[test]
fn dashboard_html_injects_base_href() {
    let html = dashboard_html(Some("/msg"));
    assert!(html.contains(r#"<base href="/msg/">"#), "{html}");
    assert!(html.contains("apiUrl(\"status\")"), "{html}");
    assert!(!html.contains(r#"fetch("/status""#), "{html}");
    assert!(html.contains("data-tab=\"clients\""), "{html}");
    assert!(html.contains("data-tab=\"topics\""), "{html}");
    assert!(html.contains("withPagers("), "{html}");
    assert!(html.contains("client.version"), "{html}");
    assert!(html.contains("client.host"), "{html}");
    assert!(html.contains("序号"), "{html}");
    assert!(html.contains("data-topic-name"), "{html}");
    assert!(html.contains("topic-modal"), "{html}");
    assert!(html.contains("consumerSummary("), "{html}");
    assert!(html.contains("id=\"client-type-filter\""), "{html}");
    assert!(html.contains("id=\"topic-name-filter\""), "{html}");
    assert!(html.contains("function fuzzyMatch("), "{html}");
    assert!(html.contains("连接时长"), "{html}");
    assert!(html.contains("fmtSince("), "{html}");
    assert!(html.contains("apiUrl(\"messages\")"), "{html}");
    assert!(html.contains("data-msg-nav"), "{html}");
    assert!(html.contains("function numCell("), "{html}");
    assert!(html.contains("td.zero"), "{html}");
    assert!(html.contains("data-clear-topic"), "{html}");
    assert!(html.contains("id=\"client-page-size\""), "{html}");
    assert!(html.contains("id=\"topic-page-size\""), "{html}");
    assert!(!html.contains("连接时间"), "{html}");
    assert!(html.contains("pad2(date.getMonth() + 1)"), "{html}");
    assert!(!html.contains("toLocaleString"), "{html}");
    assert!(!html.contains("toLocaleTimeString"), "{html}");
}

#[test]
fn dashboard_html_root_has_no_base_tag() {
    let html = dashboard_html(None);
    assert!(!html.contains("<base "));
    assert!(html.contains("apiUrl(\"status\")"));
    assert!(html.contains("role=\"tablist\""));
    assert!(html.contains("pager.top"));
    assert!(html.contains("pager.bottom"));
}

#[test]
fn health_stays_open_under_web_base() {
    assert!(is_open_health_path("/health", None));
    assert!(is_open_health_path("/health", Some("/msg")));
    assert!(is_open_health_path("/msg/health", Some("/msg")));
    assert!(!is_open_health_path("/msg/status", Some("/msg")));
    assert!(!is_open_health_path("/status", Some("/msg")));
}
#[test]
fn only_the_health_check_is_open() {
    assert!(may_pass("/health", None, Some("key"), None, None));
    assert!(!may_pass("/status", None, Some("key"), None, None));
    assert!(may_pass("/status", None, None, None, None));
    assert!(may_pass("/status", None, Some("key"), Some("Bearer key"), None));
    assert!(may_pass("/status", None, Some("key"), None, Some("token=key")));
    assert!(!may_pass("/status", None, Some("key"), Some("Bearer kez"), None));
}

fn stored(payload: Vec<u8>) -> StoredMessage {
    StoredMessage {
        id: "s00-a".into(),
        topic: "jobs".into(),
        payload,
        attributes: "{}".into(),
        status: "pending".into(),
        attempts: 2,
        created_at: "t".into(),
        delivered_at: None,
        last_error: Some("late".into()),
    }
}

#[test]
fn a_long_payload_is_cut() {
    let short = to_message_body(stored(b"abc".to_vec()));
    assert_eq!(short.payload, "abc");
    assert_eq!(short.payload_encoding, "utf-8");
    assert!(!short.truncated);
    assert_eq!(short.attempts, 2);
    assert_eq!(short.last_error.as_deref(), Some("late"));

    let whole = to_message_body(stored(vec![b'a'; MESSAGE_PREVIEW_BYTES]));
    assert!(!whole.truncated);
    let long = to_message_body(stored(vec![b'a'; MESSAGE_PREVIEW_BYTES + 1]));
    assert!(long.truncated);
    assert_eq!(long.payload.len(), MESSAGE_PREVIEW_BYTES);
    let bytes = to_message_body(stored(vec![0xff, 0xff]));
    assert_eq!(bytes.payload, "//8=");
    assert_eq!(bytes.payload_encoding, "base64");
}

#[test]
fn the_totals_are_the_sums() {
    let mut live = TopicSubscribers::default();
    live.add("busy", "c1", 1, "p", "grpc");
    let topics = vec![
        TopicSnapshot {
            name: "idle".into(),
            accepted: 3,
            pending: 1,
            delivered: 2,
            ..TopicSnapshot::default()
        },
        TopicSnapshot {
            name: "busy".into(),
            accepted: 4,
            failed: 1,
            dropped: 2,
            ..TopicSnapshot::default()
        },
    ];
    let sessions = live.sessions();
    let status = broker_status(topics, &sessions, &live, &[], &[]);
    assert_eq!(status.totals.accepted, 7);
    assert_eq!(status.totals.pending, 1);
    assert_eq!(status.totals.delivered, 2);
    assert_eq!(status.totals.failed, 1);
    assert_eq!(status.totals.dropped, 2);
    assert_eq!(status.totals.consumers, 1);
    assert_eq!(status.clients.len(), 1);
    assert_eq!(status.topics_detail[0].name, "busy");
    assert_eq!(status.topics_detail[0].streams, 1);
    assert_eq!(status.topics_detail[1].name, "idle");
}
