//! The message store: what is queued, claimed, settled and cleared away.

use cangling_broker::clock::{after, now, text_of, UtcTime};
use cangling_broker::consumers::parse_consumer_attributes;
use cangling_broker::db::Database;
use cangling_broker::intake::EnqueueInput;
use cangling_broker::json::{attributes_text, Attributes};
use cangling_broker::messages::{MessageRow, MessageStatus, MessageTable, StoreFault};
use cangling_broker::model::{DeliveryMode, PersistenceMode, TopicConfig, TopicSnapshot};
use cangling_broker::shard::{
    mark_with_shard, message_id_shard, migrate_id, new_message_id, shard_file_name, topic_shard,
    MESSAGE_SHARDS,
};

fn temp_db() -> Database {
    match Database::connect(Database::new(), &mut vec![], false) {
        Ok(db) => db,
        Err(_) => panic!("an empty store starts"),
    }
}

fn none() -> Attributes {
    Attributes::new()
}

fn put(db: &mut Database, topic: &str, payload: &[u8]) -> (String, bool) {
    db.enqueue(None, topic, &payload.to_vec(), &none()).unwrap()
}

fn config(topic: &str, delivery: DeliveryMode, persistence: PersistenceMode) -> TopicConfig {
    TopicConfig {
        topic: topic.into(),
        delivery,
        persistence,
    }
}

fn named<'a>(snapshot: &'a [TopicSnapshot], name: &str) -> &'a TopicSnapshot {
    snapshot.iter().find(|item| item.name == name).unwrap()
}

fn instant(secs: i64) -> UtcTime {
    UtcTime { secs, nanos: 0 }
}

#[test]
fn creates_sixteen_stable_message_shards() {
    let mut db = temp_db();
    assert_eq!(MESSAGE_SHARDS, 16);
    assert_eq!(db.shards.len(), MESSAGE_SHARDS);
    for index in 0..MESSAGE_SHARDS {
        assert_eq!(shard_file_name("queue", index), format!("queue-{index:02}.db"));
    }
    for topic in ["jobs/a", "jobs/b", "images/seed", "events/archive"] {
        let (id, duplicate) = put(&mut db, topic, b"payload");
        let shard = topic_shard(topic);
        assert!(!duplicate);
        assert!(id.starts_with(&format!("s{shard:02}-")));
        let table: &MessageTable = &db.shards[shard];
        let stored = (0..table.len())
            .filter(|i| table.row(*i).id == id && table.row(*i).topic == topic)
            .count();
        assert_eq!(stored, 1);
    }
}

fn old_row(id: &str, key: &str, topic: &str, at: &str) -> MessageRow {
    MessageRow {
        id: id.into(),
        idempotency_key: Some(key.into()),
        topic: topic.into(),
        payload: vec![1],
        attributes: "{}".into(),
        status: MessageStatus::Pending,
        attempts: 0,
        next_attempt_at: at.into(),
        last_error: None,
        created_at: at.into(),
        delivered_at: None,
        lease: None,
    }
}

#[test]
fn safely_copies_legacy_messages_and_keeps_rollback_rows() {
    let at = text_of(now());
    let mut old = vec![old_row("legacy-id", "legacy-key", "legacy/jobs", &at)];
    let db = match Database::connect(Database::new(), &mut old, false) {
        Ok(db) => db,
        Err(_) => panic!("the rows are copied"),
    };
    let shard = topic_shard("legacy/jobs");
    let table = &db.shards[shard];
    let place = table.find_key("legacy-key").unwrap();
    assert_eq!(table.row(place).id, format!("s{shard:02}-legacy-id"));
    assert_eq!(old.len(), 1);
    assert_eq!(old[0].id, "legacy-id");
    assert_eq!(old[0].idempotency_key.as_deref(), Some("legacy-key"));
    assert_eq!(old[0].topic, "legacy/jobs");
    assert_eq!(old[0].payload, vec![1]);
    assert_eq!(old[0].status, MessageStatus::Pending);
    assert_eq!(old[0].created_at, at);
    let copied: usize = db.shards.iter().map(MessageTable::len).sum();
    assert_eq!(copied, 1);
}

#[test]
fn a_start_leaves_nothing_in_hand() {
    for copied in [false, true] {
        let at = text_of(now());
        let mut db = temp_db();
        put(&mut db, "jobs", b"one");
        let claimed = db.claim_next_for_topic("jobs", 30).unwrap().unwrap();
        let mut held = old_row("held", "held-key", "legacy/jobs", &at);
        held.status = MessageStatus::Processing;
        held.lease = Some("gone".into());
        let mut old = vec![held];
        let started = match Database::connect(db, &mut old, copied) {
            Ok(db) => db,
            Err(_) => panic!("the rows are copied"),
        };
        assert_eq!(old.len(), 1);
        assert_eq!(old[0].id, "held");
        assert_eq!(old[0].status, MessageStatus::Pending);
        assert_eq!(old[0].lease, None);
        let row = started.find_message(&claimed.id).unwrap();
        assert_eq!(row.status, MessageStatus::Pending);
        assert_eq!(row.lease, None);
        let shard = topic_shard("legacy/jobs");
        let moved = started.find_message(&format!("s{shard:02}-held"));
        assert_eq!(moved.is_some(), !copied);
        for table in &started.shards {
            for i in 0..table.len() {
                assert_ne!(table.row(i).status, MessageStatus::Processing);
            }
        }
    }
}

#[test]
fn every_old_message_is_copied_unchanged() {
    let at = text_of(now());
    let topics = ["jobs/a", "jobs/b", "images/seed", "events/archive"];
    let mut old: Vec<MessageRow> = topics
        .iter()
        .enumerate()
        .map(|(i, topic)| old_row(&format!("old-{i}"), &format!("key-{i}"), topic, &at))
        .collect();
    let started = match Database::connect(Database::new(), &mut old, false) {
        Ok(db) => db,
        Err(_) => panic!("the rows are copied"),
    };
    for (i, topic) in topics.iter().enumerate() {
        let shard = topic_shard(topic);
        let row = started.find_message(&format!("s{shard:02}-old-{i}")).unwrap();
        let key = format!("key-{i}");
        assert_eq!(row.idempotency_key.as_deref(), Some(key.as_str()));
        assert_eq!(row.topic, *topic);
        assert_eq!(row.created_at, at);
    }
}

/// Two topics whose messages are kept in different shards.
fn apart() -> (String, String) {
    let other = (0..100)
        .map(|i| format!("other/{i}"))
        .find(|topic| topic_shard(topic) != topic_shard("jobs"))
        .unwrap();
    ("jobs".into(), other)
}

#[test]
fn an_old_message_with_a_key_of_another_topic_stops_the_start() {
    let (one, other) = apart();
    let at = text_of(now());
    let mut old = vec![
        old_row("a", "shared", &one, &at),
        old_row("b", "shared", &other, &at),
    ];
    let fault = match Database::connect(Database::new(), &mut old, false) {
        Ok(_) => panic!("the key is taken"),
        Err(fault) => fault,
    };
    let shard = topic_shard(&other);
    assert_eq!(fault.id, format!("s{shard:02}-b"));
    assert_eq!(old.len(), 2);
}

#[test]
fn a_key_is_known_to_every_topic() {
    let (one, other) = apart();
    let mut db = temp_db();
    let first = db
        .enqueue(Some("key"), &one, &b"one".to_vec(), &none())
        .unwrap();
    let second = db
        .enqueue(Some("key"), &other, &b"two".to_vec(), &none())
        .unwrap();
    assert!(!first.1);
    assert!(second.1);
    assert_eq!(first.0, second.0);
    assert_eq!(db.topic_message_page(&other, 0).total, 0);
    let stored: usize = db.shards.iter().map(MessageTable::len).sum();
    assert_eq!(stored, 1);
    let recalled = db.recent_idempotency_keys(10);
    assert_eq!(recalled.len(), 1);
    assert_eq!(recalled[0].0, topic_shard(&one));
    assert_eq!(recalled[0].1, "key");
    assert_eq!(recalled[0].2, first.0);
    let again = db
        .enqueue(Some(&recalled[0].1), &other, &b"three".to_vec(), &none())
        .unwrap();
    assert_eq!(again, (first.0, true));
}

#[test]
fn a_batch_stores_a_key_once_over_all_topics() {
    let (one, other) = apart();
    let mut db = temp_db();
    let items: Vec<EnqueueInput> = [&other, &one, &other]
        .iter()
        .map(|topic| EnqueueInput {
            id: new_message_id(topic),
            idempotency_key: Some("key".into()),
            topic: topic.to_string(),
            payload: b"body".to_vec(),
            attributes: none(),
        })
        .collect();
    let results = db.enqueue_batch(items).unwrap();
    assert_eq!(results.len(), 3);
    assert_eq!(results.iter().filter(|result| !result.1).count(), 1);
    assert!(results.iter().all(|result| result.0 == results[0].0));
    let stored: usize = db.shards.iter().map(MessageTable::len).sum();
    assert_eq!(stored, 1);
}

#[test]
fn copying_twice_copies_once() {
    let at = text_of(now());
    let old = vec![
        old_row("a", "k1", "legacy/jobs", &at),
        old_row("b", "k2", "legacy/jobs", &at),
    ];
    let mut db = temp_db();
    assert!(db.migrate_legacy_messages(&old).is_ok());
    assert!(db.migrate_legacy_messages(&old).is_ok());
    let copied: usize = db.shards.iter().map(MessageTable::len).sum();
    assert_eq!(copied, 2);
}

#[test]
fn configure_persistence_and_drop_without_subscribers() {
    let mut db = temp_db();
    db.configure_topics(&vec![config(
        "live-events",
        DeliveryMode::Broadcast,
        PersistenceMode::Ephemeral,
    )]);

    let listed = db.list_topic_configs();
    let topic = listed
        .iter()
        .find(|item| item.topic == "live-events")
        .unwrap();
    assert_eq!(topic.delivery, DeliveryMode::Broadcast);
    assert_eq!(topic.persistence, PersistenceMode::Ephemeral);
    assert_eq!(
        db.topic_persistence("live-events"),
        PersistenceMode::Ephemeral
    );
    assert_eq!(db.ephemeral_topics(), vec!["live-events"]);

    let id = db.accept_dropped("live-events");
    assert!(!id.is_empty());
    let snapshot = db.status_snapshot(None);
    let stats = named(&snapshot, "live-events");
    assert_eq!(stats.accepted, 1);
    assert_eq!(stats.dropped, 1);
    assert_eq!(stats.pending, 0);
    assert_eq!(stats.persistence, "ephemeral");
}

#[test]
fn drop_pending_marks_queued_messages() {
    let mut db = temp_db();
    put(&mut db, "live-events", b"hello");
    assert_eq!(db.drop_pending("live-events"), 1);
    assert_eq!(db.drop_pending("live-events"), 0);
    let snapshot = db.status_snapshot(None);
    let stats = named(&snapshot, "live-events");
    assert_eq!(stats.pending, 0);
    assert_eq!(stats.dropped, 1);
}

#[test]
fn topic_message_page_walks_latest_first() {
    let mut db = temp_db();
    put(&mut db, "jobs", b"one");
    put(&mut db, "jobs", b"two");
    put(&mut db, "other", b"skip");
    let latest = db.topic_message_page("jobs", 0);
    assert_eq!(latest.total, 2);
    assert_eq!(latest.message.as_ref().unwrap().payload, b"two");
    let older = db.topic_message_page("jobs", 1);
    assert_eq!(older.message.as_ref().unwrap().payload, b"one");
    let past_end = db.topic_message_page("jobs", 5);
    assert_eq!(past_end.offset, 1);
    assert_eq!(past_end.total, 2);
    assert_eq!(past_end.message.as_ref().unwrap().payload, b"one");
}

#[test]
fn topic_message_page_matches_hash_filter() {
    let mut db = temp_db();
    put(&mut db, "building/a", b"a");
    put(&mut db, "other", b"no");
    let page = db.topic_message_page("building/#", 0);
    assert_eq!(page.total, 1);
    assert_eq!(page.message.as_ref().unwrap().topic, "building/a");
}

#[test]
fn clear_topic_messages_deletes_only_that_topic() {
    let mut db = temp_db();
    put(&mut db, "jobs", b"a");
    put(&mut db, "jobs", b"b");
    put(&mut db, "other", b"c");
    assert_eq!(db.clear_topic_messages("jobs"), 2);
    assert!(db.topic_message_page("jobs", 0).message.is_none());
    assert_eq!(db.topic_message_page("other", 0).total, 1);
    let snapshot = db.status_snapshot(None);
    let jobs = named(&snapshot, "jobs");
    assert_eq!(jobs.accepted, 0);
    assert_eq!(jobs.pending, 0);
}

#[test]
fn snapshot_includes_consumer_attributes() {
    let mut db = temp_db();
    let mut attrs = Attributes::new();
    attrs.set("host".into(), "worker-1".into());
    attrs.set("version".into(), "java/0.1.29".into());
    let consumer_id = db.register_consumer(None, "jobs", "java-s0", &attrs);
    let snapshot = db.status_snapshot(None);
    let topic = named(&snapshot, "jobs");
    assert_eq!(topic.consumers.len(), 1);
    assert_eq!(topic.consumers[0].name, "java-s0");
    assert_eq!(
        topic.consumers[0]
            .attributes
            .get("host")
            .map(String::as_str),
        Some("worker-1")
    );
    assert_eq!(
        db.consumer_attribute(&consumer_id, "version").as_deref(),
        Some("java/0.1.29")
    );
}

#[test]
fn hash_filter_claims_child_and_parent_topics() {
    let mut db = temp_db();
    put(&mut db, "building/floor1/temp", b"23");
    put(&mut db, "other", b"x");
    let claimed = db
        .claim_next_for_filter("building/#", 5)
        .unwrap()
        .expect("child topic");
    assert_eq!(claimed.topic, "building/floor1/temp");
    assert!(db.delivered(&claimed.id, &claimed.lease));

    put(&mut db, "building", b"root");
    let parent = db
        .claim_next_for_filter("building/#", 5)
        .unwrap()
        .expect("parent topic");
    assert_eq!(parent.topic, "building");

    let skipped = db.claim_next_for_filter("building/#", 5).unwrap();
    assert!(skipped.is_none());
}

#[test]
fn concurrent_claims_deliver_a_message_to_only_one_worker() {
    let mut db = temp_db();
    put(&mut db, "jobs", b"once");
    let mut claimed = Vec::new();
    for _ in 0..16 {
        if let Some(message) = db.claim_next_for_topic("jobs", 30).unwrap() {
            claimed.push(message);
        }
    }
    assert_eq!(claimed.len(), 1);
    assert!(db.delivered(&claimed[0].id, &claimed[0].lease));
}

#[test]
fn mqtt_subscription_only_persists_wildcard_filters() {
    let mut db = temp_db();
    put(&mut db, "jobs", b"early");
    assert_eq!(
        db.topic_config("jobs").persistence,
        PersistenceMode::Ephemeral
    );

    db.note_subscribed_topic("jobs");
    assert_eq!(
        db.topic_config("jobs").persistence,
        PersistenceMode::Ephemeral
    );

    db.note_subscribed_topic("building/#");
    assert_eq!(
        db.topic_config("building/#").persistence,
        PersistenceMode::Persistent
    );
    assert_eq!(
        db.topic_config("building/floor1/temp").persistence,
        PersistenceMode::Ephemeral
    );

    put(&mut db, "building/floor1/temp", b"23");
    let snapshot = db.status_snapshot(None);
    let child = named(&snapshot, "building/floor1/temp");
    assert_eq!(child.persistence, "ephemeral");
    let filter = named(&snapshot, "building/#");
    assert_eq!(filter.persistence, "persistent");

    let future = text_of(after(now(), 8 * 3600));
    db.purge_idle_ephemeral(&future, &vec![]);
    let listed = db.list_topic_configs();
    let names: Vec<_> = listed.iter().map(|item| item.topic.as_str()).collect();
    assert!(names.contains(&"building/#"));
    assert!(!names.contains(&"building/floor1/temp"));
    assert!(!names.contains(&"jobs"));

    db.configure_topics(&vec![config(
        "jobs",
        DeliveryMode::Broadcast,
        PersistenceMode::Ephemeral,
    )]);
    db.note_subscribed_topic("jobs");
    assert_eq!(
        db.topic_config("jobs").persistence,
        PersistenceMode::Ephemeral
    );
}

#[test]
fn unconfigured_topic_defaults_to_broadcast_ephemeral() {
    let mut db = temp_db();
    let missing = db.topic_config("fresh");
    assert_eq!(missing.delivery, DeliveryMode::Broadcast);
    assert_eq!(missing.persistence, PersistenceMode::Ephemeral);

    put(&mut db, "fresh", b"x");
    let stored = db.topic_config("fresh");
    assert_eq!(stored.delivery, DeliveryMode::Broadcast);
    assert_eq!(stored.persistence, PersistenceMode::Ephemeral);

    db.configure_topics(&vec![config(
        "fresh",
        DeliveryMode::Single,
        PersistenceMode::Persistent,
    )]);
    put(&mut db, "fresh", b"y");
    let configured = db.topic_config("fresh");
    assert_eq!(configured.delivery, DeliveryMode::Single);
    assert_eq!(configured.persistence, PersistenceMode::Persistent);
}

#[test]
fn message_trends_aggregate_accepts_and_deliveries_by_minute() {
    let mut db = temp_db();
    put(&mut db, "jobs", b"payload");
    let claimed = db.claim_next_for_topic("jobs", 30).unwrap().unwrap();
    assert!(db.delivered(&claimed.id, &claimed.lease));
    db.record_live_fanout("live");

    let live = db.message_trends(60);
    assert_eq!(live.iter().map(|point| point.accepted).sum::<i64>(), 2);
    assert_eq!(live.iter().map(|point| point.delivered).sum::<i64>(), 2);

    db.flush_message_trends();
    let persisted = db.message_trends(60);
    assert_eq!(persisted.iter().map(|point| point.accepted).sum::<i64>(), 2);
    assert_eq!(
        persisted.iter().map(|point| point.delivered).sum::<i64>(),
        2
    );
}

#[test]
fn purge_delivered_older_than_keeps_pending_and_recent() {
    let mut db = temp_db();
    let visibility = 5;
    let (old_id, _) = put(&mut db, "jobs", b"old-delivered");
    let old = db
        .claim_next_for_topic("jobs", visibility)
        .unwrap()
        .expect("old claim");
    assert_eq!(old.id, old_id);
    assert!(db.delivered_at(&old.id, &old.lease, after(now(), -25 * 3600)));

    let (recent_id, _) = put(&mut db, "jobs", b"recent-delivered");
    let recent = db
        .claim_next_for_topic("jobs", visibility)
        .unwrap()
        .expect("recent claim");
    assert_eq!(recent.id, recent_id);
    assert!(db.delivered(&recent.id, &recent.lease));

    let (pending_id, _) = put(&mut db, "jobs", b"still-pending");

    let cutoff = text_of(after(now(), -24 * 3600));
    let deleted = db.purge_delivered_older_than(&cutoff);
    assert_eq!(deleted, 1);

    let table = &db.shards[topic_shard("jobs")];
    let mut remaining: Vec<(String, String)> = (0..table.len())
        .map(|i| (table.row(i).created_at.clone(), table.row(i).id.clone()))
        .collect();
    remaining.sort();
    let remaining: Vec<String> = remaining.into_iter().map(|(_, id)| id).collect();
    assert_eq!(remaining, vec![recent_id, pending_id]);
}

#[test]
fn purge_idle_ephemeral_keeps_configured_and_live() {
    let mut db = temp_db();
    put(&mut db, "stale", b"old");
    put(&mut db, "live", b"now");
    db.configure_topics(&vec![config(
        "kept",
        DeliveryMode::Broadcast,
        PersistenceMode::Ephemeral,
    )]);
    put(&mut db, "kept", b"cfg");

    let future = text_of(after(now(), 8 * 3600));
    let deleted = db.purge_idle_ephemeral(&future, &vec!["live".into()]);
    assert_eq!(deleted, 1);
    let listed = db.list_topic_configs();
    let names: Vec<_> = listed.iter().map(|item| item.topic.as_str()).collect();
    assert!(!names.contains(&"stale"));
    assert!(names.contains(&"live"));
    assert!(names.contains(&"kept"));
}

#[test]
fn the_oldest_message_is_claimed_first() {
    let mut db = temp_db();
    for (n, payload) in [b"a", b"b", b"c"].iter().enumerate() {
        let (_, duplicate) = db
            .enqueue_at(
                new_message_id("jobs"),
                None,
                "jobs",
                &payload.to_vec(),
                &none(),
                instant(1000 + n as i64),
            )
            .unwrap();
        assert!(!duplicate);
    }
    for (n, payload) in [b"a", b"b", b"c"].iter().enumerate() {
        let lease = format!("lease-{n}");
        let message = db
            .claim_next_for_topic_at("jobs", instant(2000), 30, &lease)
            .unwrap()
            .unwrap();
        assert_eq!(message.payload, payload.to_vec());
        assert_eq!(message.lease, lease);
    }
    assert!(db
        .claim_next_for_topic_at("jobs", instant(2000), 30, "x")
        .unwrap()
        .is_none());
}

#[test]
fn storing_under_one_key_stores_once() {
    let mut db = temp_db();
    let first = db
        .enqueue(Some("key"), "jobs", &b"one".to_vec(), &none())
        .unwrap();
    let second = db
        .enqueue(Some("key"), "jobs", &b"two".to_vec(), &none())
        .unwrap();
    assert!(!first.1);
    assert!(second.1);
    assert_eq!(first.0, second.0);
    assert_eq!(db.topic_message_page("jobs", 0).total, 1);
    assert_eq!(
        db.find_message(&first.0).map(|row| row.payload.clone()),
        Some(b"one".to_vec())
    );
    let snapshot = db.status_snapshot(None);
    assert_eq!(named(&snapshot, "jobs").accepted, 1);
    assert_eq!(named(&snapshot, "jobs").duplicates, 1);
    let recalled = db.recent_idempotency_keys(10);
    assert_eq!(recalled.len(), 1);
    assert_eq!(recalled[0].0, topic_shard("jobs"));
    assert_eq!(recalled[0].1, "key");
    assert_eq!(recalled[0].2, first.0);
}

#[test]
fn a_taken_identifier_is_refused() {
    let mut db = temp_db();
    let id = new_message_id("jobs");
    db.enqueue_at(id.clone(), None, "jobs", &vec![], &none(), instant(0))
        .unwrap();
    assert_eq!(
        db.enqueue_at(id.clone(), None, "jobs", &vec![], &none(), instant(0)),
        Err(StoreFault::NoKey)
    );
    assert_eq!(
        db.enqueue_at(id, Some("new"), "jobs", &vec![], &none(), instant(0)),
        Err(StoreFault::UnknownKey)
    );
    assert_eq!(db.topic_message_page("jobs", 0).total, 1);
}

#[test]
fn only_the_lease_holder_settles() {
    let mut db = temp_db();
    let (id, _) = put(&mut db, "jobs", b"x");
    let message = db.claim_next_for_topic("jobs", 30).unwrap().unwrap();
    assert!(!db.delivered(&id, "someone"));
    assert!(!db.release(&id, "someone"));
    assert!(!db.failed(&id, "someone", "no", 3));
    assert!(!db.drop_claimed(&id, "someone", "no"));
    assert!(db.delivered(&id, &message.lease));
    assert!(!db.delivered(&id, &message.lease));
    let snapshot = db.status_snapshot(None);
    assert_eq!(named(&snapshot, "jobs").delivered, 1);
    assert_eq!(named(&snapshot, "jobs").processing, 0);
}

#[test]
fn a_failed_message_waits_and_then_gives_up() {
    let mut db = temp_db();
    db.enqueue_at(new_message_id("jobs"), None, "jobs", &vec![], &none(), instant(0))
        .unwrap();
    let first = db
        .claim_next_for_topic_at("jobs", instant(10), 30, "l1")
        .unwrap()
        .unwrap();
    assert!(db.failed_at(&first.id, "l1", "late", 2, instant(10)));
    // It is not ready yet.
    assert!(db
        .claim_next_for_topic_at("jobs", instant(10), 30, "l2")
        .unwrap()
        .is_none());
    let again = db
        .claim_next_for_topic_at("jobs", instant(10 + 300), 30, "l2")
        .unwrap()
        .unwrap();
    assert_eq!(again.id, first.id);
    assert!(db.failed_at(&again.id, "l2", "late", 2, instant(400)));
    assert!(db
        .claim_next_for_topic_at("jobs", instant(100_000), 30, "l3")
        .unwrap()
        .is_none());
    let row = db.find_message(&first.id).unwrap();
    assert_eq!(row.status, MessageStatus::Failed);
    assert_eq!(row.last_error.as_deref(), Some("late"));
    assert_eq!(row.attempts, 2);
}

#[test]
fn a_stale_claim_is_reclaimed() {
    let mut db = temp_db();
    db.enqueue_at(new_message_id("jobs"), None, "jobs", &vec![], &none(), instant(0))
        .unwrap();
    db.claim_next_for_topic_at("jobs", instant(10), 30, "l1")
        .unwrap()
        .unwrap();
    assert_eq!(db.reclaim_stale_at(&text_of(instant(20))), 0);
    assert_eq!(db.reclaim_stale_at(&text_of(instant(41))), 1);
    let again = db
        .claim_next_for_topic_at("jobs", instant(41), 30, "l2")
        .unwrap()
        .unwrap();
    assert!(!db.delivered(&again.id, "l1"));
    assert!(db.delivered(&again.id, "l2"));
}

#[test]
fn a_released_message_is_ready_when_its_claim_would_have_ended() {
    let mut db = temp_db();
    db.enqueue_at(new_message_id("jobs"), None, "jobs", &vec![], &none(), instant(0))
        .unwrap();
    let message = db
        .claim_next_for_topic_at("jobs", instant(10), 30, "l1")
        .unwrap()
        .unwrap();
    assert!(db.release(&message.id, &message.lease));
    assert!(db
        .claim_next_for_topic_at("jobs", instant(20), 30, "l2")
        .unwrap()
        .is_none());
    let again = db
        .claim_next_for_topic_at("jobs", instant(40), 30, "l2")
        .unwrap()
        .unwrap();
    assert_eq!(again.id, message.id);
    assert!(db.drop_claimed(&again.id, &again.lease, "gone"));
    assert_eq!(
        db.find_message(&again.id).unwrap().status,
        MessageStatus::Dropped
    );
}

#[test]
fn nothing_is_in_hand_after_a_start() {
    let mut db = temp_db();
    db.enqueue_at(new_message_id("jobs"), None, "jobs", &vec![], &none(), instant(0))
        .unwrap();
    let message = db
        .claim_next_for_topic_at("jobs", instant(10), 30, "l1")
        .unwrap()
        .unwrap();
    let mut again = match Database::connect(db, &mut vec![], true) {
        Ok(db) => db,
        Err(_) => panic!("the store starts"),
    };
    assert!(!again.delivered(&message.id, &message.lease));
    let snapshot = again.status_snapshot(None);
    assert_eq!(named(&snapshot, "jobs").pending, 1);
    assert_eq!(named(&snapshot, "jobs").processing, 0);
    let claimed = again.claim_next_for_topic("jobs", 30).unwrap().unwrap();
    assert_eq!(claimed.id, message.id);
}

#[test]
fn excluded_topics_are_left_alone() {
    let mut db = temp_db();
    put(&mut db, "live/a", b"x");
    assert!(db
        .claim_next_excluding(30, vec!["live/a".into()])
        .unwrap()
        .is_none());
    let message = db
        .claim_next_excluding(30, vec!["other".into()])
        .unwrap()
        .unwrap();
    assert_eq!(message.topic, "live/a");
}

#[test]
fn attributes_come_back_as_json() {
    let mut db = temp_db();
    let mut attributes = Attributes::new();
    attributes.set("kind".into(), "a \"b\"".into());
    db.enqueue(None, "jobs", &b"x".to_vec(), &attributes).unwrap();
    let message = db.claim_next_for_topic("jobs", 30).unwrap().unwrap();
    assert_eq!(message.attributes, "{\"kind\":\"a \\\"b\\\"\"}");
    assert!(db.delivered(&message.id, &message.lease));

    let (id, _) = put(&mut db, "jobs", b"y");
    let shard = topic_shard("jobs");
    let mut table = MessageTable::new();
    let mut row = db.find_message(&id).unwrap().clone();
    row.attributes = "not json".into();
    assert!(table.insert(row));
    db.shards[shard] = table;
    assert!(db.claim_next_for_topic("jobs", 30).is_err());
}

#[test]
fn identifiers_name_their_shard() {
    for topic in ["jobs", "a/b", "温度", ""] {
        let shard = topic_shard(topic);
        assert!(shard < MESSAGE_SHARDS);
        let id = new_message_id(topic);
        assert_eq!(message_id_shard(&id), Some(shard));
        assert_eq!(id.len(), "s00-".len() + 36);
        assert_eq!(migrate_id(topic, &id), id);
        assert_eq!(migrate_id(topic, "old"), mark_with_shard(shard, "old"));
    }
    assert_eq!(mark_with_shard(7, "x"), "s07-x");
    assert_eq!(message_id_shard("s15-x"), Some(15));
    assert_eq!(message_id_shard("s16-x"), None);
    assert_eq!(message_id_shard("x"), None);
    assert_ne!(new_message_id("jobs"), new_message_id("jobs"));
}

#[test]
fn a_batch_is_stored_whole() {
    let mut db = temp_db();
    let items: Vec<EnqueueInput> = (0..3)
        .map(|n| EnqueueInput {
            id: new_message_id("jobs"),
            idempotency_key: Some(format!("k{}", n % 2)),
            topic: "jobs".into(),
            payload: vec![n as u8],
            attributes: none(),
        })
        .collect();
    let results = db.enqueue_batch(items).unwrap();
    assert_eq!(results.len(), 3);
    assert!(!results[0].1);
    assert!(!results[1].1);
    assert!(results[2].1);
    assert_eq!(results[0].0, results[2].0);
    assert_eq!(db.topic_message_page("jobs", 0).total, 2);
    let settled = db.delivered_batch(vec![("s00-x".into(), "l".into())]);
    assert_eq!(settled, vec![false]);
}

#[test]
fn consumers_are_known_until_they_leave() {
    let mut db = temp_db();
    let id = db.register_consumer_at(
        None,
        "jobs",
        "worker",
        &none(),
        "fresh-id",
        &text_of(instant(100)),
    );
    assert_eq!(id, "fresh-id");
    assert!(db.touch_consumer_at(&id, &text_of(instant(200))));
    assert_eq!(db.purge_stale_consumers(&text_of(instant(150))), 0);
    assert_eq!(db.purge_stale_consumers(&text_of(instant(201))), 1);
    assert!(!db.touch_consumer(&id));
    let own = db.register_consumer(Some("mine"), "jobs", "worker", &none());
    assert_eq!(own, "mine");
    assert!(db.unregister_consumer("mine"));
    assert!(!db.unregister_consumer("mine"));
    assert_eq!(db.consumer_attribute("mine", "host"), None);
}

#[test]
fn old_messages_are_purged() {
    let mut db = temp_db();
    for (topic, at) in [("jobs", 100), ("other", 500)] {
        db.enqueue_at(new_message_id(topic), None, topic, &vec![], &none(), instant(at))
            .unwrap();
    }
    assert_eq!(db.purge_older_than(&text_of(instant(200))), 1);
    assert_eq!(db.topic_message_page("jobs", 0).total, 0);
    assert_eq!(db.topic_message_page("other", 0).total, 1);
}

/// The depth of a topic, and how many of its messages wait and are held.
fn depth_and_count(db: &Database, topic: &str) -> ((i64, i64), (i64, i64)) {
    let depth = match db.depths.get(topic) {
        Some(d) => (d.pending, d.processing),
        None => (0, 0),
    };
    let mut counted = (0, 0);
    for shard in 0..MESSAGE_SHARDS {
        let table: &MessageTable = &db.shards[shard];
        for i in 0..table.len() {
            let row = table.row(i);
            if row.topic == topic {
                assert_eq!(topic_shard(topic), shard);
                match row.status {
                    MessageStatus::Pending => counted.0 += 1,
                    MessageStatus::Processing => counted.1 += 1,
                    _ => {}
                }
            }
        }
    }
    (depth, counted)
}

#[test]
fn depths_follow_the_messages() {
    let mut db = temp_db();
    for n in 0..6u8 {
        put(&mut db, "jobs/a", &[n]);
        put(&mut db, "jobs/b", &[n]);
    }
    let check = |db: &Database, topic: &str, expected: (i64, i64)| {
        let (depth, counted) = depth_and_count(db, topic);
        assert_eq!(depth, expected, "{topic}");
        assert_eq!(counted, expected, "{topic}");
    };
    check(&db, "jobs/a", (6, 0));
    let one = db.claim_next_for_topic("jobs/a", 30).unwrap().unwrap();
    let two = db.claim_next_for_topic("jobs/a", 30).unwrap().unwrap();
    let three = db.claim_next_for_topic("jobs/a", 30).unwrap().unwrap();
    let four = db.claim_next_for_topic("jobs/a", 0).unwrap().unwrap();
    check(&db, "jobs/a", (2, 4));
    assert!(db.delivered(&one.id, &one.lease));
    check(&db, "jobs/a", (2, 3));
    assert!(db.failed(&two.id, &two.lease, "no", 5));
    check(&db, "jobs/a", (3, 2));
    assert!(db.drop_claimed(&three.id, &three.lease, "gone"));
    check(&db, "jobs/a", (3, 1));
    assert_eq!(db.reclaim_stale(), 1);
    check(&db, "jobs/a", (4, 0));
    assert!(!db.release(&four.id, &four.lease));
    assert_eq!(db.drop_pending("jobs/a"), 4);
    check(&db, "jobs/a", (0, 0));
    check(&db, "jobs/b", (6, 0));
    assert_eq!(db.clear_topic_messages("jobs/b"), 6);
    check(&db, "jobs/b", (0, 0));
}

#[test]
fn a_claimed_message_is_settled_by_identifier_and_lease_alone() {
    let mut db = temp_db();
    for topic in ["jobs/a", "jobs/b", "images/seed", "events/archive"] {
        put(&mut db, topic, topic.as_bytes());
    }
    for _ in 0..4 {
        let held = db.claim_next_for_filter("#", 30).unwrap().unwrap();
        assert_eq!(held.payload, held.topic.as_bytes());
        assert_eq!(message_id_shard(&held.id), Some(topic_shard(&held.topic)));
        assert!(!db.delivered(&held.id, "another lease"));
        assert!(db.delivered(&held.id, &held.lease));
    }
    assert!(db.claim_next_for_filter("#", 30).unwrap().is_none());
}

#[test]
fn a_filter_looks_at_the_first_ready_messages_of_a_shard() {
    let mut db = temp_db();
    let shard = topic_shard("wanted/one");
    let crowd: String = (0..1000)
        .map(|n| format!("crowd/{n}"))
        .find(|name| topic_shard(name) == shard)
        .unwrap();
    for n in 0..63u8 {
        put(&mut db, &crowd, &[n]);
    }
    let (id, _) = put(&mut db, "wanted/one", b"x");
    let held = db.claim_next_for_filter("wanted/#", 30).unwrap().unwrap();
    assert_eq!(held.id, id);
    assert!(db.release(&held.id, &held.lease));

    let mut db = temp_db();
    for n in 0..64u8 {
        put(&mut db, &crowd, &[n]);
    }
    put(&mut db, "wanted/one", b"x");
    assert!(db.claim_next_for_filter("wanted/#", 30).unwrap().is_none());
}

#[test]
fn attributes_are_read_back_whatever_they_are_called() {
    let mut attributes = Attributes::new();
    for name in [
        "",
        "host",
        "quote\"d",
        "$serde_json::private::RawValue",
        "$serde_json::private::Number",
    ] {
        attributes.set(name.to_string(), format!("1{name}"));
    }
    let read = parse_consumer_attributes(&attributes_text(&attributes));
    assert_eq!(read.len(), 5);
    for i in 0..attributes.len() {
        let name = attributes.key_at(i);
        assert_eq!(read.get(name), Some(&format!("1{name}")));
    }
}

#[test]
fn only_objects_of_strings_hold_attributes() {
    assert_eq!(parse_consumer_attributes("{\"a\":1}").len(), 0);
    assert_eq!(parse_consumer_attributes("{\"a\":1,\"a\":\"x\"}").len(), 0);
    assert_eq!(parse_consumer_attributes("[\"a\"]").len(), 0);
    assert_eq!(parse_consumer_attributes("not json").len(), 0);
    let read = parse_consumer_attributes("{\"a\":\"x\",\"a\":\"y\"}");
    assert_eq!(read.len(), 1);
    assert_eq!(read.get("a").map(String::as_str), Some("y"));
}
