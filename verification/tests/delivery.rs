//! Messages on their way to those who listen.

use cangling_broker::clock::UtcTime;
use cangling_broker::config::Config;
use cangling_broker::db::Database;
use cangling_broker::delivery::{
    attrs_to_map, fanout_done, ingest, Ingested, Intake, PROTOCOL_GRPC,
};
use cangling_broker::json::Attributes;
use cangling_broker::messages::MessageStatus;
use cangling_broker::model::{DeliveryMode, PersistenceMode, TopicConfig};
use cangling_broker::subscribers::{AckDecision, InflightAcks, TopicSubscribers};
use cangling_broker::subscription::{Ack, Action, Event, SubscribeLoop, Subscription};

fn temp_db() -> Database {
    match Database::connect(Database::new(), &mut vec![], false) {
        Ok(db) => db,
        Err(_) => panic!("an empty store starts"),
    }
}

fn persistent(db: &mut Database, topic: &str, delivery: DeliveryMode) {
    db.configure_topics(&vec![TopicConfig {
        topic: topic.into(),
        delivery,
        persistence: PersistenceMode::Persistent,
    }]);
}

fn take(db: &mut Database, live: &TopicSubscribers, topic: &str, payload: &[u8]) -> Intake {
    match ingest(db, live, topic, &payload.to_vec(), Attributes::new(), None) {
        Ok(intake) => intake,
        Err(_) => panic!("the message is taken"),
    }
}

fn instant(secs: i64) -> UtcTime {
    UtcTime { secs, nanos: 0 }
}

#[test]
fn ephemeral_hash_fanout_does_not_queue() {
    let mut db = temp_db();
    let mut subscribers = TopicSubscribers::default();
    let tx = 7;
    subscribers.add("/ibuser/1/#", "mqtt:web-1", tx, "127.0.0.1:1", "mqtt-ws");

    let fanout = match take(&mut db, &subscribers, "/ibuser/1/dRueErAe", b"hello") {
        Intake::Send(fanout) => fanout,
        Intake::Done(_) => panic!("the message goes out"),
    };
    assert_eq!(fanout.to, vec![tx]);
    let message = fanout.message;
    assert_eq!(message.topic, "/ibuser/1/dRueErAe");
    assert_eq!(message.payload, b"hello");
    let ingested = fanout_done(&mut db, "/ibuser/1/dRueErAe", message.message_id, 1);
    assert!(matches!(ingested, Ingested::Queued { duplicate: false, .. }));

    let leftover = db.claim_next_for_topic("/ibuser/1/dRueErAe", 1).unwrap();
    assert!(leftover.is_none(), "ephemeral live fanout must not persist");
}

#[test]
fn an_unheard_ephemeral_message_is_dropped() {
    let mut db = temp_db();
    let live = TopicSubscribers::default();
    let intake = take(&mut db, &live, "live", b"x");
    assert!(matches!(intake, Intake::Done(Ingested::Dropped { .. })));
    let snapshot = db.status_snapshot(None);
    let topic = snapshot.iter().find(|topic| topic.name == "live").unwrap();
    assert_eq!(topic.accepted, 1);
    assert_eq!(topic.dropped, 1);
    // Nobody took it, though somebody listened.
    let done = fanout_done(&mut db, "live", "m".into(), 0);
    assert!(matches!(done, Ingested::Dropped { .. }));
}

#[test]
fn a_broadcast_goes_to_everyone() {
    let mut db = temp_db();
    let mut live = TopicSubscribers::default();
    live.add("all/#", "a", 1, "p", "grpc");
    live.add("all/+", "b", 2, "p", "mqtt");
    live.add("other", "c", 3, "p", "mqtt");
    match take(&mut db, &live, "all/x", b"x") {
        Intake::Send(fanout) => {
            let mut to = fanout.to;
            to.sort();
            assert_eq!(to, vec![1, 2]);
        }
        Intake::Done(_) => panic!("the message goes out"),
    }
}

#[test]
fn a_single_delivery_goes_to_one() {
    let mut db = temp_db();
    db.configure_topics(&vec![TopicConfig {
        topic: "one".into(),
        delivery: DeliveryMode::Single,
        persistence: PersistenceMode::Ephemeral,
    }]);
    let mut live = TopicSubscribers::default();
    live.add("one", "a", 1, "p", "grpc");
    live.add("one", "b", 2, "p", "grpc");
    match take(&mut db, &live, "one", b"x") {
        Intake::Send(fanout) => assert_eq!(fanout.to.len(), 1),
        Intake::Done(_) => panic!("the message goes out"),
    }
}

#[test]
fn a_persistent_message_is_kept() {
    let mut db = temp_db();
    persistent(&mut db, "jobs", DeliveryMode::Single);
    let live = TopicSubscribers::default();
    match take(&mut db, &live, "jobs", b"x") {
        Intake::Done(Ingested::Queued { duplicate, message_id }) => {
            assert!(!duplicate);
            assert!(db.find_message(&message_id).is_some());
        }
        _ => panic!("the message is stored"),
    }
}

#[test]
fn attributes_are_read_from_json() {
    let map = attrs_to_map("{\"a\":\"1\",\"b\":2}");
    assert_eq!(map.len(), 1);
    assert_eq!(map.get("a").map(String::as_str), Some("1"));
    assert_eq!(attrs_to_map("[]").len(), 0);
    assert_eq!(attrs_to_map("nonsense").len(), 0);
}

/// A subscription of its own, and what it works on.
struct Bench {
    db: Database,
    live: TopicSubscribers,
    acks: InflightAcks,
    subscription: Subscription,
    leases: u32,
}

fn bench(topic: &str) -> Bench {
    let mut db = temp_db();
    persistent(&mut db, "jobs", DeliveryMode::Single);
    let mut config = Config::test_default();
    config.max_delivery_attempts = 2;
    let mut live = TopicSubscribers::default();
    let args = SubscribeLoop::new(
        &config,
        topic.into(),
        "c1".into(),
        "c1".into(),
        5,
        "10.0.0.1:1".into(),
        PROTOCOL_GRPC,
        "go/1".into(),
        "host".into(),
    );
    let subscription = Subscription::start(args, &mut live);
    Bench {
        db,
        live,
        acks: InflightAcks::default(),
        subscription,
        leases: 0,
    }
}

impl Bench {
    fn turn(&mut self, event: Event, secs: i64) -> Action {
        self.leases += 1;
        let fresh = format!("lease-{}", self.leases);
        self.subscription.step_at(
            &mut self.db,
            &mut self.live,
            &mut self.acks,
            event,
            instant(secs),
            fresh,
        )
    }

    /// Steps without news until something is to be done.
    fn go(&mut self, secs: i64) -> Action {
        for _ in 0..8 {
            match self.turn(Event::Go { closing: false }, secs) {
                Action::Continue => {}
                other => return other,
            }
        }
        panic!("nothing is ever to be done")
    }

    fn put(&mut self, payload: &[u8]) -> String {
        let id = cangling_broker::shard::new_message_id("jobs");
        self.db
            .enqueue_at(
                id,
                None,
                "jobs",
                &payload.to_vec(),
                &Attributes::new(),
                instant(100),
            )
            .unwrap()
            .0
    }
}

#[test]
fn an_acknowledged_message_is_delivered() {
    let mut bench = bench("jobs");
    let id = bench.put(b"x");
    match bench.go(200) {
        Action::Send { to, message } => {
            assert_eq!(to, 5);
            assert_eq!(message.message_id, id);
            assert_eq!(message.payload, b"x");
        }
        _ => panic!("the message is sent"),
    }
    let lease = match bench.turn(Event::Sent { ok: true }, 200) {
        Action::Await { lease, secs } => {
            assert_eq!(secs, 3);
            lease
        }
        Action::Continue => match bench.go(200) {
            Action::Await { lease, secs } => {
                assert_eq!(secs, 3);
                lease
            }
            _ => panic!("the answer is awaited"),
        },
        _ => panic!("the answer is awaited"),
    };
    let decision = bench.acks.complete(&id, &lease, true, String::new()).unwrap();
    bench.turn(
        Event::Acked {
            ack: Ack::Decided(decision),
            stopping: false,
        },
        201,
    );
    assert_eq!(
        bench.db.find_message(&id).unwrap().status,
        MessageStatus::Delivered
    );
    assert!(matches!(bench.go(202), Action::Sleep { millis: 20 }));
}

fn sent_and_awaited(bench: &mut Bench, secs: i64) -> String {
    let mut action = bench.go(secs);
    for _ in 0..8 {
        action = match action {
            Action::Send { .. } => bench.turn(Event::Sent { ok: true }, secs),
            Action::Continue => bench.turn(Event::Go { closing: false }, secs),
            Action::Await { lease, .. } => return lease,
            _ => panic!("the message is sent and its answer awaited"),
        };
    }
    panic!("the answer is never awaited")
}

#[test]
fn a_refused_message_comes_again_and_then_fails() {
    let mut bench = bench("jobs");
    let id = bench.put(b"x");
    let _ = sent_and_awaited(&mut bench, 200);
    bench.turn(
        Event::Acked {
            ack: Ack::Decided(AckDecision {
                success: false,
                error: "busy".into(),
            }),
            stopping: false,
        },
        201,
    );
    let row = bench.db.find_message(&id).unwrap();
    assert_eq!(row.status, MessageStatus::Pending);
    assert_eq!(row.last_error.as_deref(), Some("busy"));
    assert!(matches!(bench.go(201), Action::Sleep { .. }));
    let _ = sent_and_awaited(&mut bench, 1000);
    bench.turn(
        Event::Acked {
            ack: Ack::Lost,
            stopping: false,
        },
        1001,
    );
    let row = bench.db.find_message(&id).unwrap();
    assert_eq!(row.status, MessageStatus::Failed);
    assert_eq!(row.last_error.as_deref(), Some("ack timeout or subscriber gone"));
}

#[test]
fn a_stopping_broker_gives_the_message_back() {
    let mut bench = bench("jobs");
    let id = bench.put(b"x");
    let _ = sent_and_awaited(&mut bench, 200);
    bench.turn(
        Event::Acked {
            ack: Ack::Stopping,
            stopping: true,
        },
        201,
    );
    let row = bench.db.find_message(&id).unwrap();
    assert_ne!(row.status, MessageStatus::Delivered);
    assert_ne!(row.status, MessageStatus::Failed);
    assert_eq!(bench.live.count("jobs"), 0);
    assert!(matches!(bench.turn(Event::Go { closing: false }, 202), Action::Stop));
}

#[test]
fn a_message_that_nobody_takes_waits() {
    let mut bench = bench("jobs");
    let id = bench.put(b"x");
    match bench.go(200) {
        Action::Send { .. } => {}
        _ => panic!("the message is sent"),
    }
    bench.turn(Event::Sent { ok: false }, 200);
    let _ = bench.go(200);
    let row = bench.db.find_message(&id).unwrap();
    assert_eq!(row.status, MessageStatus::Pending);
    assert_eq!(
        row.last_error.as_deref(),
        Some("no live subscriber accepted the message")
    );
}

#[test]
fn a_closing_stream_leaves() {
    let mut bench = bench("jobs");
    assert!(bench.live.is_live("jobs", "c1"));
    assert!(matches!(bench.turn(Event::Go { closing: true }, 200), Action::Stop));
    assert!(!bench.live.is_live("jobs", "c1"));
}
