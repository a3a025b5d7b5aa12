//! Cached values and locks.

use std::time::{Duration, Instant};

use cangling_broker::cache::{
    require_key, require_lock, require_owner, BadRequest, CacheEntry, CacheService, CacheStore,
    IncrFault, LockEntry, LockStore, NotANumber,
};
use cangling_broker::clock::{text_of, UtcTime};

fn stores() -> (CacheStore, LockStore) {
    (CacheStore::new(), LockStore::new())
}

fn wait(span: Duration) {
    let start = Instant::now();
    while start.elapsed() < span {
        std::hint::spin_loop();
    }
}

fn instant(secs: i64) -> UtcTime {
    UtcTime { secs, nanos: 0 }
}

#[test]
fn set_get_delete_roundtrip() {
    let (mut cache, _lock) = stores();
    cache.set("k", b"hello".to_vec(), "string", 0);
    let entry = cache.get("k");
    assert_eq!(entry.as_ref().map(|(v, _)| v.as_slice()), Some(&b"hello"[..]));
    assert_eq!(entry.as_ref().map(|(_, t)| t.as_str()), Some("string"));
    assert!(cache.delete("k"));
    assert!(!cache.delete("k"));
    assert!(cache.get("k").is_none());
}

#[test]
fn ttl_semantics_match_redis() {
    let (mut cache, _lock) = stores();
    assert_eq!(cache.ttl("missing"), -2);
    cache.set("forever", b"1".to_vec(), "string", 0);
    assert_eq!(cache.ttl("forever"), -1);
    cache.set("temp", b"1".to_vec(), "string", 60);
    assert!(cache.ttl("temp") > 0);
    cache.expire("temp", 0);
    assert_eq!(cache.ttl("temp"), -1);
}

#[test]
fn expired_value_is_lazily_deleted() {
    let (mut cache, _lock) = stores();
    cache.set("k", b"v".to_vec(), "string", 1);
    wait(Duration::from_millis(1100));
    assert!(cache.get("k").is_none());
    assert!(!cache.is_present("k"));
}

#[test]
fn incr_is_atomic_and_creates_key() {
    let (mut cache, _lock) = stores();
    assert_eq!(cache.incr("n", 5, 60), Ok(5));
    assert_eq!(cache.incr("n", 7, 60), Ok(12));
    let (value, value_type) = cache.get("n").unwrap();
    assert_eq!(value, b"12");
    assert_eq!(value_type, "long");
}

#[test]
fn lock_acquire_release_and_renew() {
    let (_cache, mut lock) = stores();
    assert!(lock.acquire("job", "a", 60));
    assert!(!lock.acquire("job", "b", 60));
    assert!(lock.is_locked("job"));
    assert!(lock.renew("job", "a", 60));
    assert!(!lock.release("job", "b"));
    assert!(lock.release("job", "a"));
    assert!(!lock.is_locked("job"));
    assert!(lock.acquire("job", "b", 60));
}

#[test]
fn expired_lock_can_be_reacquired() {
    let (_cache, mut lock) = stores();
    assert!(lock.acquire("job", "a", 1));
    wait(Duration::from_millis(1100));
    assert!(!lock.is_locked("job"));
    assert!(lock.acquire("job", "b", 60));
}

#[test]
fn a_value_lives_until_its_deadline() {
    let mut cache = CacheStore::new();
    cache.set_at("k", b"v".to_vec(), "", 10, instant(100));
    assert_eq!(cache.ttl_at("k", instant(100)), 10);
    assert_eq!(cache.ttl_at("k", instant(104)), 6);
    assert!(cache.get_at("k", instant(109)).is_some());
    assert!(cache.get_at("k", instant(110)).is_none());
    assert_eq!(cache.ttl_at("k", instant(110)), -2);
}

#[test]
fn a_value_without_type_is_a_string() {
    let mut cache = CacheStore::new();
    cache.set_at("k", b"v".to_vec(), "", 0, instant(0));
    assert_eq!(
        cache.get_at("k", instant(1)),
        Some((b"v".to_vec(), "string".to_string()))
    );
}

#[test]
fn a_count_begins_with_the_leading_number() {
    let mut cache = CacheStore::new();
    cache.set("s", b"12abc".to_vec(), "string", 0);
    assert_eq!(cache.incr("s", 1, 0), Ok(13));
    cache.set("t", b"abc".to_vec(), "string", 0);
    assert_eq!(cache.incr("t", 1, 0), Ok(1));
    cache.set("n", b"-40".to_vec(), "long", 0);
    assert_eq!(cache.incr("n", 1, 0), Ok(-39));
    cache.set("max", b"9223372036854775807".to_vec(), "long", 0);
    assert_eq!(cache.incr("max", 1, 0), Err(NotANumber));
    assert_eq!(
        cache.get("max").map(|(value, _)| value),
        Some(b"9223372036854775807".to_vec())
    );
}

#[test]
fn expired_entries_are_swept() {
    let (mut cache, mut lock) = stores();
    cache.load(
        "old".into(),
        CacheEntry {
            value: b"v".to_vec(),
            value_type: "string".into(),
            expire_at: Some(text_of(instant(10))),
            update_time: text_of(instant(1)),
        },
    );
    cache.set_at("new", b"v".to_vec(), "string", 100, instant(10));
    assert_eq!(cache.purge_expired_at(&text_of(instant(20))), 1);
    assert!(cache.is_present_at("new", instant(20)));
    lock.load(
        "job".into(),
        LockEntry {
            owner: "a".into(),
            expire_at: text_of(instant(10)),
            create_time: text_of(instant(1)),
        },
    );
    assert!(lock.is_locked_at("job", instant(9)));
    assert_eq!(lock.purge_expired_at(&text_of(instant(20))), 1);
    assert_eq!(lock.purge_expired(), 0);
    assert_eq!(cache.purge_expired(), 1);
}

#[test]
fn requests_name_what_they_want() {
    assert_eq!(require_key(" k "), Ok("k"));
    assert_eq!(require_key("  "), Err(BadRequest::Key));
    assert_eq!(require_lock("k", "o", 1), Ok(("k", "o")));
    assert_eq!(require_lock("", "o", 1), Err(BadRequest::Key));
    assert_eq!(require_lock("k", " ", 1), Err(BadRequest::Owner));
    assert_eq!(require_lock("k", "o", 0), Err(BadRequest::Ttl));
    assert_eq!(require_owner("k", ""), Err(BadRequest::Owner));
    assert_eq!(require_owner("k", "o"), Ok(("k", "o")));
    for fault in [BadRequest::Key, BadRequest::Owner, BadRequest::Ttl] {
        assert!(!fault.message().is_empty());
    }
}

#[test]
fn the_service_checks_before_it_acts() {
    let mut service = CacheService::new();
    assert_eq!(
        service.set_at("", b"v".to_vec(), "", 0, instant(0)),
        Err(BadRequest::Key)
    );
    assert_eq!(service.set_at(" k ", b"v".to_vec(), "", 0, instant(0)), Ok(()));
    assert_eq!(
        service.get_at("k", instant(1)),
        Ok(Some((b"v".to_vec(), "string".to_string())))
    );
    assert_eq!(service.ttl_at("k", instant(1)), Ok(-1));
    assert_eq!(service.expire_from("k", 5, instant(1)), Ok(true));
    assert_eq!(service.ttl_at("k", instant(1)), Ok(5));
    assert_eq!(service.incr_at("k", i64::MAX, 0, instant(1)), Ok(i64::MAX));
    assert_eq!(service.incr_at("k", 1, 0, instant(1)), Err(IncrFault::NotANumber));
    assert_eq!(
        service.incr_at("", 1, 0, instant(1)),
        Err(IncrFault::Request(BadRequest::Key))
    );
    assert_eq!(service.incr_at("n", 4, 0, instant(1)), Ok(4));
    assert_eq!(service.delete("k"), Ok(true));
    assert_eq!(service.acquire_lock_at("job", "a", 5, instant(1)), Ok(true));
    assert_eq!(service.acquire_lock_at("job", "b", 5, instant(5)), Ok(false));
    assert_eq!(service.renew_lock_at("job", "a", 5, instant(5)), Ok(true));
    assert_eq!(service.acquire_lock_at("job", "b", 5, instant(9)), Ok(false));
    assert_eq!(service.release_lock("job", "b"), Ok(false));
    assert_eq!(service.release_lock("job", "a"), Ok(true));
    assert_eq!(service.release_lock("job", ""), Err(BadRequest::Owner));
}
