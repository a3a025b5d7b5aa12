//! Times as text: the order of the texts is the order of the times, and what
//! depends on it happens at its second.

use cangling_broker::cache::CacheService;
use cangling_broker::clock::{
    after, minute, text_of, UtcTime, FIRST_WRITTEN, LAST_WRITTEN,
};
use cangling_broker::config::Config;
use cangling_broker::db::Database;
use cangling_broker::json::Attributes;
use cangling_broker::messages::MessageStatus;
use cangling_broker::shard::new_message_id;
use cangling_broker::subscribers::TopicSubscribers;
use cangling_broker::upkeep::{consumer_cutoff_at, sweep_at};

const BASE: i64 = 1_786_838_400;

fn at(secs: i64, nanos: u32) -> UtcTime {
    UtcTime { secs, nanos }
}

fn temp_db() -> Database {
    match Database::connect(Database::new(), &mut vec![], false) {
        Ok(db) => db,
        Err(_) => panic!("an empty store starts"),
    }
}

fn put(db: &mut Database, topic: &str, now: UtcTime) -> String {
    let id = new_message_id(topic);
    db.enqueue_at(id, None, topic, &b"body".to_vec(), &Attributes::new(), now)
        .unwrap()
        .0
}

fn some_times() -> Vec<UtcTime> {
    let mut times = Vec::new();
    for secs in [
        FIRST_WRITTEN,
        FIRST_WRITTEN + 59,
        FIRST_WRITTEN + 60,
        -30_610_224_000,
        -61,
        -60,
        -1,
        0,
        1,
        59,
        60,
        951_782_399,
        951_782_400,
        BASE,
        BASE + 1,
        LAST_WRITTEN - 1,
        LAST_WRITTEN,
    ] {
        for nanos in [
            0,
            1,
            999,
            1_000,
            1_001,
            999_999,
            1_000_000,
            1_000_001,
            120_000_000,
            120_000_500,
            120_001_000,
            500_000_000,
            999_999_999,
        ] {
            times.push(at(secs, nanos));
        }
    }
    times
}

#[test]
fn texts_sort_as_times_do() {
    let times = some_times();
    for a in &times {
        for b in &times {
            let order = (a.secs, a.nanos).cmp(&(b.secs, b.nanos));
            assert_eq!(text_of(*a).cmp(&text_of(*b)), order);
        }
    }
    assert_eq!(text_of(at(FIRST_WRITTEN, 0)), "0000-01-01T00:00:00+00:00");
    assert_eq!(text_of(at(LAST_WRITTEN, 0)), "9999-12-31T23:59:59+00:00");
    // Beyond these years a sign comes first.
    assert!(text_of(at(LAST_WRITTEN + 1, 0)) < text_of(at(LAST_WRITTEN, 0)));
}

#[test]
fn minutes_sort_as_times_do() {
    let times = some_times();
    for a in &times {
        for b in &times {
            let order = a.secs.div_euclid(60).cmp(&b.secs.div_euclid(60));
            assert_eq!(minute(*a).cmp(&minute(*b)), order);
        }
    }
    assert_eq!(minute(at(FIRST_WRITTEN + 59, 7)), "0000-01-01T00:00:00Z");
}

#[test]
fn a_lock_is_held_to_the_nanosecond() {
    let mut values = CacheService::new();
    let start = at(BASE, 120_000_000);
    assert_eq!(values.acquire_lock_at("job", "a", 5, start), Ok(true));
    let last = at(BASE + 5, 119_999_999);
    assert!(values.lock.is_locked_at("job", last));
    assert_eq!(values.lock.purge_expired_at(&text_of(last)), 0);
    assert_eq!(values.acquire_lock_at("job", "b", 5, last), Ok(false));
    let end = after(start, 5);
    assert!(!values.lock.is_locked_at("job", end));
    assert_eq!(values.acquire_lock_at("job", "b", 5, end), Ok(true));
    assert_eq!(values.release_lock("job", "a"), Ok(false));
}

#[test]
fn a_value_lives_for_its_seconds() {
    let mut values = CacheService::new();
    let start = at(BASE, 500_000_000);
    assert_eq!(values.set_at("k", b"v".to_vec(), "", 2, start), Ok(()));
    let last = at(BASE + 2, 499_999_999);
    assert_eq!(values.cache.purge_expired_at(&text_of(last)), 0);
    assert!(values.cache.get_at("k", last).is_some());
    assert_eq!(values.expire_from("k", 3, last), Ok(true));
    assert!(values.cache.get_at("k", at(BASE + 5, 499_999_998)).is_some());
    let end = at(BASE + 5, 499_999_999);
    assert_eq!(values.cache.purge_expired_at(&text_of(end)), 1);
}

#[test]
fn a_number_starts_anew_after_its_seconds() {
    let mut values = CacheService::new();
    assert_eq!(values.incr_at("n", 4, 2, at(BASE, 0)), Ok(4));
    assert_eq!(values.incr_at("n", 3, 2, at(BASE + 1, 999_999_999)), Ok(7));
    assert_eq!(values.incr_at("n", 3, 2, at(BASE + 2, 0)), Ok(3));
}

#[test]
fn a_claim_lasts_for_its_seconds() {
    let mut db = temp_db();
    let id = put(&mut db, "jobs", at(BASE, 1));
    assert!(db
        .claim_next_for_topic_at("jobs", at(BASE, 0), 30, "early")
        .unwrap()
        .is_none());
    db.claim_next_for_topic_at("jobs", at(BASE, 1), 30, "l")
        .unwrap()
        .unwrap();
    assert_eq!(db.reclaim_stale_at(&text_of(at(BASE + 30, 0))), 0);
    assert_eq!(db.find_message(&id).unwrap().status, MessageStatus::Processing);
    assert_eq!(db.reclaim_stale_at(&text_of(at(BASE + 30, 1))), 1);
    assert_eq!(db.find_message(&id).unwrap().status, MessageStatus::Pending);
    assert!(db
        .claim_next_for_topic_at("jobs", at(BASE + 30, 1), 30, "m")
        .unwrap()
        .is_some());
}

#[test]
fn a_retry_waits_for_its_seconds() {
    let mut db = temp_db();
    let id = put(&mut db, "jobs", at(BASE, 0));
    db.claim_next_for_topic_at("jobs", at(BASE, 0), 30, "l")
        .unwrap()
        .unwrap();
    // One attempt was made, so that the delay is two seconds.
    assert!(db.failed_at(&id, "l", "no", 5, at(BASE + 1, 10)));
    assert!(db
        .claim_next_for_topic_at("jobs", at(BASE + 3, 9), 30, "m")
        .unwrap()
        .is_none());
    assert!(db
        .claim_next_for_topic_at("jobs", at(BASE + 3, 10), 30, "m")
        .unwrap()
        .is_some());
}

#[test]
fn older_messages_are_served_first() {
    let mut db = temp_db();
    let second = put(&mut db, "jobs", at(BASE, 120_000_500));
    let first = put(&mut db, "jobs", at(BASE, 120_000_000));
    let mut next = |lease: &str| {
        db.claim_next_for_topic_at("jobs", at(BASE + 1, 0), 30, lease)
            .unwrap()
            .unwrap()
            .id
    };
    assert_eq!(next("l"), first);
    assert_eq!(next("m"), second);
}

#[test]
fn what_is_old_goes_at_its_second() {
    let mut db = temp_db();
    let live = TopicSubscribers::default();
    let mut values = CacheService::new();
    let mut config = Config::test_default();
    config.message_retention_days = 3;
    config.delivered_retention_hours = 0;
    config.consumer_ttl_secs = 60;
    let gone = put(&mut db, "jobs", at(BASE, 4));
    let kept = put(&mut db, "jobs", at(BASE, 5));
    let now = at(BASE + 3 * 86400, 5);
    for (id, seen) in [("early", at(now.secs - 60, 4)), ("late", at(now.secs - 60, 5))] {
        let seen = text_of(seen);
        db.register_consumer_at(Some(id), "jobs", id, &Attributes::new(), "fresh", &seen);
    }
    let cutoff = consumer_cutoff_at(60, now);
    let shown = db.status_snapshot(cutoff.as_deref());
    let topic = shown.iter().find(|item| item.name == "jobs").unwrap();
    for consumer in &topic.consumers {
        assert_eq!(consumer.live, consumer.id == "late");
    }
    sweep_at(&mut db, &live, &mut values, &config, None, now);
    assert!(db.find_message(&gone).is_none());
    assert!(db.find_message(&kept).is_some());
    let left: Vec<&str> = db.consumers.rows.iter().map(|row| row.id.as_str()).collect();
    assert_eq!(left, vec!["late"]);
}

#[test]
fn delivered_messages_stay_for_their_hours() {
    let mut db = temp_db();
    let live = TopicSubscribers::default();
    let mut values = CacheService::new();
    let mut config = Config::test_default();
    config.message_retention_days = 0;
    config.delivered_retention_hours = 2;
    let id = put(&mut db, "jobs", at(BASE, 0));
    db.claim_next_for_topic_at("jobs", at(BASE, 0), 30, "l")
        .unwrap()
        .unwrap();
    assert!(db.delivered_at(&id, "l", at(BASE + 1, 7)));
    sweep_at(&mut db, &live, &mut values, &config, None, at(BASE + 7201, 7));
    assert!(db.find_message(&id).is_some());
    sweep_at(&mut db, &live, &mut values, &config, None, at(BASE + 7201, 8));
    assert!(db.find_message(&id).is_none());
}

#[test]
fn trends_reach_back_their_minutes() {
    let mut db = temp_db();
    put(&mut db, "jobs", at(BASE + 59, 0));
    put(&mut db, "jobs", at(BASE + 60, 0));
    assert_eq!(db.message_trends_at(&minute(at(BASE + 30, 0))).len(), 2);
    let shown = db.message_trends_at(&minute(at(BASE + 119, 0)));
    assert_eq!(shown.len(), 1);
    assert_eq!(shown[0].minute, minute(at(BASE + 60, 0)));
    assert_eq!(db.flush_message_trends_at(&minute(at(BASE + 60, 0))), 2);
    assert_eq!(db.message_trends_at(&minute(at(BASE, 0))).len(), 1);
}
