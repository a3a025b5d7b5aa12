//! Calls, batches of writes, and upkeep.

use cangling_broker::cache::CacheService;
use cangling_broker::clock::{minute, now, text_of, UtcTime};
use cangling_broker::config::Config;
use cangling_broker::db::Database;
use cangling_broker::delivery::{Ingested, Intake};
use cangling_broker::json::{attributes_text, Attributes};
use cangling_broker::messages::{MessageStatus, StoreFault};
use cangling_broker::model::{DeliveryMode, PersistenceMode, TopicConfig};
use cangling_broker::number::{decimal_bytes, read_leading_integer};
use cangling_broker::service::{
    accept_message, accept_message_at, accept_reply, ack_message, configure_topics, read_configs,
    register, register_at, require_topic, subscribe_at, to_bodies, unregister, AcceptFault,
    AcceptRequest, CallFault, RegisterRequest, TopicConfigBody,
};
use cangling_broker::shard::{new_message_id, topic_shard};
use cangling_broker::subscribers::{InflightAcks, TopicSubscribers};
use cangling_broker::upkeep::{
    consumer_cutoff_at, dispatch, is_idle_purge_due, settle_post_at, sweep_at,
};
use cangling_broker::writer::{
    delivery_shard, enqueue_input, run_batch, shard_queue_size, Batch, Inbox, QueueNotifications,
    WriteCommand, WriteResult,
};

fn temp_db() -> Database {
    match Database::connect(Database::new(), &mut vec![], false) {
        Ok(db) => db,
        Err(_) => panic!("an empty store starts"),
    }
}

fn instant(secs: i64) -> UtcTime {
    UtcTime { secs, nanos: 0 }
}

fn enqueue(key: &str, topic: &str) -> WriteCommand {
    WriteCommand::Enqueue(enqueue_input(
        Some(key),
        topic,
        b"payload".to_vec(),
        Attributes::new(),
    ))
}

#[test]
fn batches_enqueue_and_delivery_completion() {
    let mut db = temp_db();
    db.configure_topics(&vec![TopicConfig {
        topic: "jobs".into(),
        delivery: DeliveryMode::Single,
        persistence: PersistenceMode::Persistent,
    }]);
    let mut notifications = QueueNotifications::default();
    let seen = notifications.subscribe("jobs");
    let mut batch = Batch::begin(enqueue("key-0", "jobs"), 64);
    for index in 1..64 {
        assert!(!batch.is_full());
        assert_eq!(
            batch.accept(Inbox::Command(enqueue(&format!("key-{index}"), "jobs"))),
            index == 63
        );
    }
    assert!(batch.is_full());
    let results = run_batch(&mut db, batch.commands);
    assert_eq!(results.len(), 64);
    assert!(results
        .iter()
        .all(|result| matches!(result, WriteResult::Enqueued(Ok((_, false))))));
    for result in &results {
        notifications.notify_result("jobs", result);
    }
    assert_ne!(
        notifications.subscribe("jobs"),
        seen,
        "committed publish should wake subscribers"
    );

    let snapshot = db.status_snapshot(None);
    let jobs = snapshot.iter().find(|topic| topic.name == "jobs").unwrap();
    assert_eq!(jobs.pending, 64);
    assert_eq!(jobs.processing, 0);

    let message = db.claim_next_for_topic("jobs", 10).unwrap().unwrap();
    let settled = run_batch(
        &mut db,
        vec![WriteCommand::Delivered {
            id: message.id.clone(),
            lease: message.lease.clone(),
        }],
    );
    assert!(matches!(settled[0], WriteResult::Delivered(true)));
    let snapshot = db.status_snapshot(None);
    let jobs = snapshot.iter().find(|topic| topic.name == "jobs").unwrap();
    assert_eq!(jobs.pending, 63);
    assert_eq!(jobs.processing, 0);
    db.flush_topic_stats();
    let row = db.topics.get("jobs").unwrap();
    assert_eq!(row.accepted, 64);
    assert_eq!(row.delivered, 1);
}

#[test]
fn a_batch_ends_at_its_deadline() {
    let mut batch = Batch::begin(enqueue("a", "jobs"), 8);
    assert!(batch.accept(Inbox::Deadline));
    assert!(!batch.stop);
    assert!(batch.accept(Inbox::Shutdown));
    assert!(batch.stop);
    let mut gone = Batch::begin(enqueue("a", "jobs"), 8);
    assert!(gone.accept(Inbox::Closed));
    assert_eq!(gone.commands.len(), 1);
}

#[test]
fn a_write_goes_to_its_shard() {
    let id = new_message_id("jobs");
    assert_eq!(delivery_shard(&id), topic_shard("jobs"));
    assert!(delivery_shard("nonsense") < 16);
    assert!(shard_queue_size(0) >= 1);
    assert_eq!(shard_queue_size(256), 16);
}

#[test]
fn watchers_of_other_topics_sleep_on() {
    let mut notifications = QueueNotifications::default();
    let jobs = notifications.subscribe("jobs");
    let other = notifications.subscribe("other");
    let all = notifications.subscribe("#");
    notifications.notify("jobs");
    assert_ne!(notifications.subscribe("jobs"), jobs);
    assert_eq!(notifications.subscribe("other"), other);
    assert_ne!(notifications.subscribe("#"), all);
    notifications.notify_result("other", &WriteResult::Enqueued(Err(StoreFault::NoKey)));
    assert_eq!(notifications.subscribe("other"), other);
}

fn request(topic: &str, payload: &[u8]) -> AcceptRequest {
    AcceptRequest {
        idempotency_key: String::new(),
        topic: topic.into(),
        payload: payload.to_vec(),
        attributes: Attributes::new(),
    }
}

#[test]
fn a_call_names_its_topic_and_payload() {
    let mut db = temp_db();
    let live = TopicSubscribers::default();
    assert!(matches!(
        accept_message(&mut db, &live, request(" ", b"x")),
        Err(AcceptFault::Call(CallFault::Topic))
    ));
    assert!(matches!(
        accept_message(&mut db, &live, request("jobs", b"")),
        Err(AcceptFault::Call(CallFault::Payload))
    ));
    let intake = match accept_message_at(&mut db, &live, request("jobs", b"x"), instant(1), "id".into()) {
        Ok(intake) => intake,
        Err(_) => panic!("the message is taken"),
    };
    match intake {
        Intake::Done(done) => {
            assert!(matches!(done, Ingested::Dropped { .. }));
            let (id, duplicate) = accept_reply(done);
            assert_eq!(id, "id");
            assert!(!duplicate);
        }
        Intake::Send(_) => panic!("nobody listens"),
    }
    assert_eq!(require_topic(" a "), Ok("a"));
    assert_eq!(require_topic(""), Err(CallFault::Topic));
}

#[test]
fn every_fault_of_a_call_has_words() {
    for fault in [
        CallFault::Topic,
        CallFault::Payload,
        CallFault::Consumer,
        CallFault::Topics,
        CallFault::Delivery,
        CallFault::Persistence,
        CallFault::Lease,
    ] {
        assert!(!fault.message().is_empty());
    }
}

#[test]
fn a_consumer_registers_and_leaves() {
    let mut db = temp_db();
    let ask = |topic: &str, id: &str| RegisterRequest {
        consumer_id: id.into(),
        topic: topic.into(),
        name: "w".into(),
        attributes: Attributes::new(),
    };
    assert_eq!(
        register(&mut db, ask("", "c"), String::new(), String::new()),
        Err(CallFault::Topic)
    );
    let id = register_at(
        &mut db,
        ask("jobs", ""),
        "go/1".into(),
        "host".into(),
        "fresh",
        &text_of(instant(1)),
    )
    .unwrap();
    assert_eq!(id, "fresh");
    assert_eq!(db.consumer_attribute("fresh", "version").as_deref(), Some("go/1"));
    assert_eq!(db.consumer_attribute("fresh", "host").as_deref(), Some("host"));
    assert_eq!(unregister(&mut db, " "), Err(CallFault::Consumer));
    assert_eq!(unregister(&mut db, "fresh"), Ok(true));
    assert_eq!(unregister(&mut db, "fresh"), Ok(false));
}

#[test]
fn a_stream_begins_with_its_settings() {
    let mut db = temp_db();
    let config = Config::test_default();
    let at = text_of(instant(1));
    assert!(matches!(
        subscribe_at(&mut db, &config, " ", "c", String::new(), String::new(), "p".into(), 1, "f".into(), &at),
        Err(CallFault::Topic)
    ));
    let args = match subscribe_at(
        &mut db,
        &config,
        "jobs",
        "c",
        "go/1".into(),
        "host".into(),
        "p".into(),
        4,
        "f".into(),
        &at,
    ) {
        Ok(args) => args,
        Err(_) => panic!("the stream begins"),
    };
    assert_eq!(args.topic, "jobs");
    assert_eq!(args.consumer_id, "c");
    assert_eq!(args.tx, 4);
    assert_eq!(args.peer, "p");
    assert_eq!(args.version, "go/1");
    assert_eq!(args.poll_ms, 20);
    assert_eq!(args.max_attempts, 10);
    assert_eq!(args.visibility, 3);
}

fn body(topic: &str, delivery: &str, persistence: &str) -> TopicConfigBody {
    TopicConfigBody {
        topic: topic.into(),
        delivery: delivery.into(),
        persistence: persistence.into(),
    }
}

fn fault_of(bodies: Vec<TopicConfigBody>) -> Option<CallFault> {
    read_configs(&bodies).err()
}

#[test]
fn settings_are_read_and_listed() {
    assert_eq!(fault_of(vec![]), Some(CallFault::Topics));
    assert_eq!(fault_of(vec![body("", "single", "")]), Some(CallFault::Topic));
    assert_eq!(fault_of(vec![body("a", "x", "")]), Some(CallFault::Delivery));
    assert_eq!(fault_of(vec![body("a", "single", "x")]), Some(CallFault::Persistence));
    let mut db = temp_db();
    let told = match configure_topics(&mut db, &vec![body("a", "single", "persistent")]) {
        Ok(told) => told,
        Err(_) => panic!("the settings are good"),
    };
    assert_eq!(told.len(), 1);
    let listed = to_bodies(db.list_topic_configs());
    assert_eq!(listed.len(), 1);
    assert_eq!(listed[0].topic, "a");
    assert_eq!(listed[0].delivery, "single");
    assert_eq!(listed[0].persistence, "persistent");
}

#[test]
fn an_acknowledgement_needs_its_lease() {
    let mut acks = InflightAcks::default();
    acks.register("m".into(), "l".into());
    assert!(matches!(
        ack_message(&mut acks, "m", "", true, String::new()),
        Err(CallFault::Lease)
    ));
    match ack_message(&mut acks, "m", "l", false, "no".into()) {
        Ok(Some(decision)) => {
            assert!(!decision.success);
            assert_eq!(decision.error, "no");
        }
        _ => panic!("somebody waits"),
    }
    assert!(matches!(
        ack_message(&mut acks, "m", "l", true, String::new()),
        Ok(None)
    ));
}

#[test]
fn only_unheard_messages_go_downstream() {
    let mut db = temp_db();
    let mut live = TopicSubscribers::default();
    db.configure_topics(&vec![TopicConfig {
        topic: "jobs".into(),
        delivery: DeliveryMode::Single,
        persistence: PersistenceMode::Persistent,
    }]);
    db.enqueue(None, "jobs", &b"x".to_vec(), &Attributes::new()).unwrap();
    live.add("jobs", "c", 1, "p", "grpc");
    assert!(dispatch(&mut db, &live, 30).is_none());
    live.remove("jobs", "c");
    let message = match dispatch(&mut db, &live, 30) {
        Some(message) => message,
        None => panic!("nobody listens, so the message is claimed"),
    };
    assert!(settle_post_at(&mut db, &message, Some("503"), 1, now()));
    assert_eq!(
        db.find_message(&message.id).unwrap().status,
        MessageStatus::Failed
    );
    db.enqueue(None, "jobs", &b"y".to_vec(), &Attributes::new()).unwrap();
    let message = dispatch(&mut db, &live, 30).unwrap();
    assert!(settle_post_at(&mut db, &message, None, 1, now()));
    assert_eq!(
        db.find_message(&message.id).unwrap().status,
        MessageStatus::Delivered
    );
}

#[test]
fn a_sweep_takes_back_what_nobody_settled() {
    let mut db = temp_db();
    let live = TopicSubscribers::default();
    let mut values = CacheService::new();
    let config = Config::test_default();
    db.configure_topics(&vec![TopicConfig {
        topic: "jobs".into(),
        delivery: DeliveryMode::Single,
        persistence: PersistenceMode::Persistent,
    }]);
    let id = new_message_id("jobs");
    db.enqueue_at(id.clone(), None, "jobs", &b"x".to_vec(), &Attributes::new(), instant(0))
        .unwrap();
    db.claim_next_for_topic_at("jobs", instant(10), 30, "l")
        .unwrap()
        .unwrap();
    sweep_at(&mut db, &live, &mut values, &config, None, instant(20));
    assert_eq!(db.find_message(&id).unwrap().status, MessageStatus::Processing);
    sweep_at(&mut db, &live, &mut values, &config, None, instant(40));
    assert_eq!(db.find_message(&id).unwrap().status, MessageStatus::Pending);
    assert!(!db.delivered(&id, "l"));
}

#[test]
fn a_sweep_keeps_to_its_limits() {
    let mut db = temp_db();
    let live = TopicSubscribers::default();
    let mut values = CacheService::new();
    let mut config = Config::test_default();
    db.enqueue_at(
        new_message_id("jobs"),
        None,
        "jobs",
        &b"x".to_vec(),
        &Attributes::new(),
        instant(0),
    )
    .unwrap();
    let later = instant(10 * 86400);
    sweep_at(&mut db, &live, &mut values, &config, None, later);
    assert_eq!(db.topic_message_page("jobs", 0).total, 1);
    config.message_retention_days = 3;
    sweep_at(&mut db, &live, &mut values, &config, None, later);
    assert_eq!(db.topic_message_page("jobs", 0).total, 0);
    assert!(!is_idle_purge_due(&config, None));
    config.ephemeral_idle_hours = 1;
    assert!(is_idle_purge_due(&config, None));
    assert!(!is_idle_purge_due(&config, Some(10)));
    assert!(is_idle_purge_due(&config, Some(3600)));
    assert_eq!(consumer_cutoff_at(0, later), None);
    assert_eq!(consumer_cutoff_at(60, instant(100)), Some(text_of(instant(40))));
}

#[test]
fn times_are_written_in_words() {
    assert_eq!(text_of(instant(0)), "1970-01-01T00:00:00+00:00");
    assert_eq!(
        text_of(UtcTime { secs: 1_700_000_000, nanos: 5_000_000 }),
        "2023-11-14T22:13:20.005+00:00"
    );
    assert!(minute(instant(1_700_000_000)).starts_with("2023-11-14T22:13"));
    assert!(now().secs > 1_700_000_000);
}

#[test]
fn numbers_are_read_back() {
    for n in [0, 7, -7, 1234567890, i64::MAX, i64::MIN] {
        assert_eq!(decimal_bytes(n), n.to_string().into_bytes());
        assert_eq!(read_leading_integer(&decimal_bytes(n)), n);
    }
    assert_eq!(read_leading_integer(&b"12abc".to_vec()), 12);
    assert_eq!(read_leading_integer(&b"abc".to_vec()), 0);
}

#[test]
fn attributes_are_written_in_order() {
    let mut attributes = Attributes::new();
    attributes.set("b".into(), "2".into());
    attributes.set("a".into(), "1".into());
    assert_eq!(attributes_text(&attributes), "{\"a\":\"1\",\"b\":\"2\"}");
    assert_eq!(attributes_text(&Attributes::new()), "{}");
}
