//! What the broker does on its own: posting messages downstream that nobody
//! subscribes to, letting messages wait again that nobody settled, and deleting
//! what has had its time.
use vstd::prelude::*;
use vstd::string::*;

use crate::cache;
use crate::cache::{CacheEntry, CacheService, LockEntry};
use crate::clock;
use crate::clock::UtcTime;
use crate::config::Config;
use crate::consumers;
use crate::db;
use crate::db::Database;
use crate::messages;
use crate::model::ClaimedMessage;
use crate::queue;
use crate::queue::BadAttributes;
use crate::retention;
use crate::shard;
use crate::shard::MESSAGE_SHARDS;
use crate::snapshot;
use crate::subscribers;
use crate::subscribers::{Live, TopicSubscribers};
use crate::text;

verus! {

/// Seconds between two sweeps.
pub const SWEEP_SECS: u64 = 60;

// ----------------------------------------------------------------- downstream

/// The topics whose messages are not posted downstream: those with a
/// subscription of exactly that name, and the ephemeral ones.
pub open spec fn is_skipped(db: Database, live: Live, topic: Seq<char>) -> bool {
    live.contains_key(topic) || (db.topics@.contains_key(topic) && db.topics@[topic].persistence
        == "ephemeral"@)
}

fn topics_to_skip(database: &Database, live: &TopicSubscribers) -> (r: Vec<String>)
    ensures
        forall|t: Seq<char>| #[trigger]
            text::texts(r@).contains(t) <==> is_skipped(*database, live@, t),
{
    let mut skip: Vec<String> = live.topics();
    let ephemeral: Vec<String> = database.ephemeral_topics();
    let ghost first = text::texts(skip@);
    let ghost more = text::texts(ephemeral@);
    let mut i: usize = 0;
    proof {
        assert(more.take(0) =~= Seq::<Seq<char>>::empty());
    }
    while i < ephemeral.len()
        invariant
            i <= ephemeral@.len(),
            more == text::texts(ephemeral@),
            forall|t: Seq<char>| #[trigger]
                text::texts(skip@).contains(t) <==> first.contains(t) || more.take(
                    i as int,
                ).contains(t),
        decreases ephemeral.len() - i,
    {
        let ghost so_far = text::texts(skip@);
        proof {
            text::lemma_take_grows(more, i as int);
            assert(more[i as int] == ephemeral@[i as int]@);
        }
        if !text::contains_text(&skip, ephemeral[i].as_str()) {
            skip.push(ephemeral[i].clone());
            proof {
                let last = ephemeral@[i as int]@;
                assert(text::texts(skip@) =~= so_far.push(last));
                assert forall|t: Seq<char>| #[trigger] text::texts(skip@).contains(t) <==> (
                so_far.contains(t) || t == last) by {
                    let now = so_far.push(last);
                    assert(now[so_far.len() as int] == last);
                    if so_far.contains(t) {
                        assert(now[so_far.index_of(t)] == t);
                    }
                    if now.contains(t) && t != last {
                        assert(so_far[now.index_of(t)] == t);
                    }
                }
            }
        }
        i = i + 1;
    }
    proof {
        assert(more.take(more.len() as int) =~= more);
        assert forall|t: Seq<char>| #[trigger] text::texts(skip@).contains(t) <==> is_skipped(
            *database,
            live@,
            t,
        ) by {
            assert(first.contains(t) <==> live@.contains_key(t));
            assert(more.contains(t) <==> (database.topics@.contains_key(t)
                && database.topics@[t].persistence == "ephemeral"@));
        }
    }
    skip
}

/// A message was fetched to be posted downstream. One whose topic somebody
/// receives by now is given back.
pub open spec fn dispatched(
    before: Database,
    after: Database,
    live: Live,
    visibility: u64,
    now: UtcTime,
    lease: Seq<char>,
    r: Option<ClaimedMessage>,
) -> bool {
    exists|
        skip: Seq<Seq<char>>,
        mid: Database,
        got: Result<Option<ClaimedMessage>, BadAttributes>,
    |
        #![trigger queue::claimed_excluding(before, mid, skip, now, visibility, lease, got)]
        {
            &&& forall|t: Seq<char>| #[trigger]
                skip.contains(t) <==> is_skipped(before, live, t)
            &&& queue::claimed_excluding(before, mid, skip, now, visibility, lease, got)
            &&& match got {
                Ok(Some(message)) => if subscribers::covered(live, message@.topic) {
                    &&& r is None
                    &&& exists|ok: bool| #[trigger]
                        queue::released(mid, after, message@.id, message@.lease, ok)
                } else {
                    &&& r matches Some(m) && m@ == message@
                    &&& after == mid
                },
                _ => r is None && after == mid,
            }
        }
}

/// Fetches a message to be posted downstream at the time `now`.
pub fn dispatch_at(
    database: &mut Database,
    live: &TopicSubscribers,
    visibility: u64,
    now: UtcTime,
    lease: &str,
) -> (r: Option<ClaimedMessage>)
    requires
        old(database).wf(),
        now.valid(),
    ensures
        final(database).wf(),
        dispatched(*old(database), *final(database), live@, visibility, now, lease@, r),
{
    let skip: Vec<String> = topics_to_skip(database, live);
    let ghost names = text::texts(skip@);
    let got: Result<Option<ClaimedMessage>, BadAttributes> = database.claim_next_excluding_at(
        now,
        visibility,
        skip,
        lease,
    );
    let ghost mid = *database;
    proof {
        assert(queue::claimed_excluding(
            *old(database),
            mid,
            names,
            now,
            visibility,
            lease@,
            got,
        ));
    }
    match got {
        Ok(Some(message)) => {
            if live.covers(message.topic.as_str()) {
                let ok: bool = database.release(message.id.as_str(), message.lease.as_str());
                proof {
                    assert(queue::released(mid, *database, message@.id, message@.lease, ok));
                }
                None
            } else {
                Some(message)
            }
        },
        _ => None,
    }
}

/// Fetches a message to be posted downstream.
pub fn dispatch(database: &mut Database, live: &TopicSubscribers, visibility: u64) -> (r: Option<
    ClaimedMessage,
>)
    requires
        old(database).wf(),
    ensures
        final(database).wf(),
        exists|now: UtcTime, lease: Seq<char>|
            now.valid() && shard::is_uuid_text(lease) && #[trigger] dispatched(
                *old(database),
                *final(database),
                live@,
                visibility,
                now,
                lease,
                r,
            ),
{
    let lease: String = shard::random_id();
    dispatch_at(database, live, visibility, clock::now(), lease.as_str())
}

/// A message was posted downstream, or could not be.
pub open spec fn post_settled(
    before: Database,
    after: Database,
    id: Seq<char>,
    lease: Seq<char>,
    error: Option<Seq<char>>,
    max_attempts: i64,
    now: UtcTime,
    ok: bool,
) -> bool {
    match error {
        None => db::delivered_once(before, after, id, lease, ok, now),
        Some(reason) => queue::attempt_failed(
            before,
            after,
            id,
            lease,
            reason,
            max_attempts,
            now,
            ok,
        ),
    }
}

/// Settles a message that was posted downstream, or could not be for a reason.
pub fn settle_post_at(
    database: &mut Database,
    message: &ClaimedMessage,
    error: Option<&str>,
    max_attempts: i64,
    now: UtcTime,
) -> (r: bool)
    requires
        old(database).wf(),
        now.valid(),
    ensures
        final(database).wf(),
        post_settled(
            *old(database),
            *final(database),
            message@.id,
            message@.lease,
            text::opt_str(error),
            max_attempts,
            now,
            r,
        ),
{
    match error {
        None => database.delivered_at(message.id.as_str(), message.lease.as_str(), now),
        Some(reason) => database.failed_at(
            message.id.as_str(),
            message.lease.as_str(),
            reason,
            max_attempts,
            now,
        ),
    }
}

// -------------------------------------------------------------------- cutoffs

/// The time `n` units of so many seconds before now.
pub open spec fn time_before(now: UtcTime, n: int, unit: int) -> UtcTime {
    clock::time_after(now, -(n * unit))
}

fn before(now: UtcTime, n: u64, unit: u32) -> (r: UtcTime)
    requires
        now.valid(),
        unit > 0,
    ensures
        r == time_before(now, n as int, unit as int),
        r.valid(),
{
    match n.checked_mul(unit as u64) {
        Some(span) => {
            if span <= 20_000_000_000_000 {
                return clock::after(now, -(span as i64));
            }
        },
        None => {},
    }
    proof {
        assert(clock::shifted(now, -(n * unit)) is None);
    }
    clock::after(now, -20_000_000_000_000)
}

/// Consumers that were seen before this time are gone; none where consumers stay
/// until they leave.
pub open spec fn stale_before(ttl_secs: u64, now: UtcTime) -> Option<Seq<char>> {
    if ttl_secs == 0 {
        None
    } else {
        Some(clock::time_text(time_before(now, ttl_secs as int, 1)))
    }
}

/// Consumers that were seen before this time are gone at the time `now`.
pub fn consumer_cutoff_at(ttl_secs: u64, now: UtcTime) -> (r: Option<String>)
    requires
        now.valid(),
    ensures
        text::opt_text(r) == stale_before(ttl_secs, now),
        r is Some ==> clock::faithful(time_before(now, ttl_secs as int, 1)),
{
    if ttl_secs == 0 {
        None
    } else {
        Some(clock::text_of(before(now, ttl_secs, 1)))
    }
}

/// Consumers that were seen before this time are gone.
pub fn consumer_cutoff(ttl_secs: u64) -> (r: Option<String>)
    ensures
        exists|now: UtcTime|
            now.valid() && text::opt_text(r) == #[trigger] stale_before(ttl_secs, now) && (r is Some
                ==> clock::faithful(time_before(now, ttl_secs as int, 1))),
{
    consumer_cutoff_at(ttl_secs, clock::now())
}

/// Whether idle topics are looked for: never where that is switched off; else
/// the first time, and then when the interval has passed.
pub open spec fn idle_due(config: Config, since: Option<u64>) -> bool {
    config.ephemeral_idle_hours > 0 && match since {
        None => true,
        Some(secs) => config.purge_interval_hours == 0 || secs >= if config.purge_interval_hours
            * 3600 > u64::MAX {
            u64::MAX as int
        } else {
            config.purge_interval_hours * 3600
        },
    }
}

/// Whether idle topics are looked for, `since` seconds after the last time.
pub fn is_idle_purge_due(config: &Config, since: Option<u64>) -> (r: bool)
    ensures
        r == idle_due(*config, since),
{
    if config.ephemeral_idle_hours == 0 {
        return false;
    }
    match since {
        None => true,
        Some(secs) => {
            if config.purge_interval_hours == 0 {
                true
            } else {
                match config.purge_interval_hours.checked_mul(3600) {
                    Some(every) => secs >= every,
                    None => secs >= u64::MAX,
                }
            }
        },
    }
}

// --------------------------------------------------------------------- sweeps

/// The waiting messages of a topic were dropped, unless somebody receives it.
pub open spec fn dropped_unless_heard(
    before: Database,
    after: Database,
    live: Live,
    topic: Seq<char>,
    now: Seq<char>,
) -> bool {
    if subscribers::covered(live, topic) {
        after == before
    } else {
        exists|n: int| #[trigger] queue::pending_dropped(before, after, topic, now, n)
    }
}

/// The waiting messages of the topics in a list were dropped, but for those that
/// somebody receives.
pub open spec fn unheard_dropped(
    before: Database,
    after: Database,
    live: Live,
    list: Seq<Seq<char>>,
    now: Seq<char>,
) -> bool
    decreases list.len(),
{
    if list.len() == 0 {
        after == before
    } else {
        exists|mid: Database|
            unheard_dropped(before, mid, live, list.drop_last(), now)
                && #[trigger] dropped_unless_heard(mid, after, live, list.last(), now)
    }
}

fn drop_unheard(database: &mut Database, live: &TopicSubscribers, now: &str)
    requires
        old(database).wf(),
    ensures
        final(database).wf(),
        exists|list: Seq<Seq<char>>|
            {
                &&& are_ephemeral(*old(database), list)
                &&& #[trigger] unheard_dropped(
                    *old(database),
                    *final(database),
                    live@,
                    list,
                    now@,
                )
            },
{
    let names: Vec<String> = database.ephemeral_topics();
    let ghost list = text::texts(names@);
    let ghost first = *database;
    let mut i: usize = 0;
    proof {
        assert(list.take(0) =~= Seq::<Seq<char>>::empty());
        assert(are_ephemeral(first, list));
    }
    while i < names.len()
        invariant
            i <= names@.len(),
            list == text::texts(names@),
            database.wf(),
            unheard_dropped(first, *database, live@, list.take(i as int), now@),
        decreases names.len() - i,
    {
        let ghost mid = *database;
        proof {
            assert(list.take(i + 1).drop_last() =~= list.take(i as int));
            assert(list.take(i + 1).last() == names@[i as int]@);
        }
        if !live.covers(names[i].as_str()) {
            let n: usize = database.drop_pending_at(names[i].as_str(), now);
            proof {
                assert(queue::pending_dropped(mid, *database, names@[i as int]@, now@, n as int));
            }
        }
        proof {
            assert(dropped_unless_heard(mid, *database, live@, list.take(i + 1).last(), now@));
        }
        i = i + 1;
    }
    proof {
        assert(list.take(list.len() as int) =~= list);
        assert(unheard_dropped(first, *database, live@, list, now@));
    }
}

/// The ephemeral topics of the catalogue, each once.
pub open spec fn are_ephemeral(db: Database, list: Seq<Seq<char>>) -> bool {
    &&& text::ascending(list)
    &&& forall|t: Seq<char>| #[trigger]
        list.contains(t) <==> (db.topics@.contains_key(t) && db.topics@[t].persistence
            == "ephemeral"@)
}

/// Old messages were deleted, where a time to keep them is set.
pub open spec fn old_purged(
    before: Database,
    after: Database,
    config: Config,
    now: UtcTime,
) -> bool {
    if config.message_retention_days > 0 {
        let cutoff = clock::time_text(
            time_before(now, config.message_retention_days as int, 86400),
        );
        &&& exists|n: u64| #[trigger]
            retention::purged(before, after, messages::not_created_before(cutoff), true, n)
        &&& clock::faithful(time_before(now, config.message_retention_days as int, 86400))
    } else {
        after == before
    }
}

/// Delivered messages were deleted, where a time to keep them is set.
pub open spec fn delivered_purged(
    before: Database,
    after: Database,
    config: Config,
    now: UtcTime,
) -> bool {
    if config.delivered_retention_hours > 0 {
        let cutoff = clock::time_text(
            time_before(now, config.delivered_retention_hours as int, 3600),
        );
        &&& exists|n: u64| #[trigger]
            retention::purged(before, after, messages::not_delivered_before(cutoff), false, n)
        &&& clock::faithful(time_before(now, config.delivered_retention_hours as int, 3600))
    } else {
        after == before
    }
}

/// Idle topics were forgotten, where they were looked for.
pub open spec fn idle_swept(
    before: Database,
    after: Database,
    live: Live,
    config: Config,
    since: Option<u64>,
    now: UtcTime,
) -> bool {
    if idle_due(config, since) {
        let cutoff = clock::time_text(
            time_before(now, config.ephemeral_idle_hours as int, 3600),
        );
        &&& exists|keep: Seq<Seq<char>>, n: usize|
            {
                &&& forall|t: Seq<char>| #[trigger] keep.contains(t) <==> live.contains_key(t)
                &&& #[trigger] retention::idle_purged(
                    before,
                    after,
                    cutoff,
                    keep,
                    clock::time_text(now),
                    n,
                )
            }
        &&& clock::faithful(time_before(now, config.ephemeral_idle_hours as int, 3600))
    } else {
        after == before
    }
}

/// Consumers that have not been seen for too long were removed.
pub open spec fn consumers_swept(
    before: Database,
    after: Database,
    config: Config,
    now: UtcTime,
) -> bool {
    match stale_before(config.consumer_ttl_secs, now) {
        None => after == before,
        Some(cutoff) => {
            &&& after.consumers@ == consumers::consumers_kept(
                before.consumers@,
                consumers::not_seen_before(cutoff),
            )
            &&& snapshot::consumers_only(before, after)
            &&& clock::faithful(time_before(now, config.consumer_ttl_secs as int, 1))
        },
    }
}

fn purge_old(database: &mut Database, config: &Config, now: UtcTime)
    requires
        old(database).wf(),
        now.valid(),
    ensures
        final(database).wf(),
        old_purged(*old(database), *final(database), *config, now),
{
    if config.message_retention_days > 0 {
        let cutoff: String = clock::text_of(
            before(now, config.message_retention_days as u64, 86400),
        );
        let n: u64 = database.purge_older_than(cutoff.as_str());
        proof {
            assert(retention::purged(
                *old(database),
                *database,
                messages::not_created_before(cutoff@),
                true,
                n,
            ));
        }
    }
}

fn purge_delivered(database: &mut Database, config: &Config, now: UtcTime)
    requires
        old(database).wf(),
        now.valid(),
    ensures
        final(database).wf(),
        delivered_purged(*old(database), *final(database), *config, now),
{
    if config.delivered_retention_hours > 0 {
        let cutoff: String = clock::text_of(before(now, config.delivered_retention_hours, 3600));
        let n: u64 = database.purge_delivered_older_than(cutoff.as_str());
        proof {
            assert(retention::purged(
                *old(database),
                *database,
                messages::not_delivered_before(cutoff@),
                false,
                n,
            ));
        }
    }
}

fn purge_idle(
    database: &mut Database,
    live: &TopicSubscribers,
    config: &Config,
    since: Option<u64>,
    now: UtcTime,
) -> (r: bool)
    requires
        old(database).wf(),
        now.valid(),
    ensures
        final(database).wf(),
        r == idle_due(*config, since),
        idle_swept(*old(database), *final(database), live@, *config, since, now),
{
    if !is_idle_purge_due(config, since) {
        return false;
    }
    let at: String = clock::text_of(now);
    let cutoff: String = clock::text_of(before(now, config.ephemeral_idle_hours, 3600));
    let keep: Vec<String> = live.topics();
    let n: usize = database.purge_idle_ephemeral_at(cutoff.as_str(), &keep, at.as_str());
    proof {
        assert(retention::idle_purged(
            *old(database),
            *database,
            cutoff@,
            text::texts(keep@),
            clock::time_text(now),
            n,
        ));
    }
    true
}

fn purge_consumers(database: &mut Database, config: &Config, now: UtcTime)
    requires
        old(database).wf(),
        now.valid(),
    ensures
        final(database).wf(),
        consumers_swept(*old(database), *final(database), *config, now),
{
    match consumer_cutoff_at(config.consumer_ttl_secs, now) {
        Some(cutoff) => {
            database.purge_stale_consumers(cutoff.as_str());
        },
        None => {},
    }
}

/// A sweep: one step after the other.
pub open spec fn sweep_done(
    before: Database,
    after: Database,
    live: Live,
    config: Config,
    since: Option<u64>,
    now: UtcTime,
) -> bool {
    &&& clock::faithful(now)
    &&& exists|
        n: u64,
        first: Database,
        list: Seq<Seq<char>>,
        a: Database,
        b: Database,
        c: Database,
        d: Database,
    |
        #![trigger retention::reclaimed(before, first, clock::time_text(now), n),
            unheard_dropped(first, a, live, list, clock::time_text(now)),
            old_purged(a, b, config, now),
            delivered_purged(b, c, config, now),
            idle_swept(c, d, live, config, since, now)]
        {
            &&& retention::reclaimed(before, first, clock::time_text(now), n)
            &&& are_ephemeral(first, list)
            &&& unheard_dropped(first, a, live, list, clock::time_text(now))
            &&& old_purged(a, b, config, now)
            &&& delivered_purged(b, c, config, now)
            &&& idle_swept(c, d, live, config, since, now)
            &&& consumers_swept(d, after, config, now)
        }
}

/// Lets messages wait again that nobody settled in time, and deletes what has had
/// its time, at the time `now`; `since` is how many seconds ago idle topics were
/// looked for last. Says whether they were this time.
pub fn sweep_at(
    database: &mut Database,
    live: &TopicSubscribers,
    values: &mut CacheService,
    config: &Config,
    since: Option<u64>,
    now: UtcTime,
) -> (r: bool)
    requires
        old(database).wf(),
        now.valid(),
    ensures
        final(database).wf(),
        r == idle_due(*config, since),
        sweep_done(*old(database), *final(database), live@, *config, since, now),
        final(values).cache@ == cache::unswept::<CacheEntry>(
            old(values).cache@,
            clock::time_text(now),
        ),
        final(values).lock@ == cache::unswept::<LockEntry>(
            old(values).lock@,
            clock::time_text(now),
        ),
{
    let at: String = clock::text_of(now);
    let n: u64 = database.reclaim_stale_at(at.as_str());
    let ghost first = *database;
    drop_unheard(database, live, at.as_str());
    let ghost a = *database;
    let ghost list = choose|list: Seq<Seq<char>>|
        {
            &&& are_ephemeral(first, list)
            &&& #[trigger] unheard_dropped(first, a, live@, list, at@)
        };
    purge_old(database, config, now);
    let ghost b = *database;
    purge_delivered(database, config, now);
    let ghost c = *database;
    let r: bool = purge_idle(database, live, config, since, now);
    let ghost d = *database;
    purge_consumers(database, config, now);
    values.cache.purge_expired_at(at.as_str());
    values.lock.purge_expired_at(at.as_str());
    proof {
        assert(retention::reclaimed(*old(database), first, clock::time_text(now), n));
        assert(unheard_dropped(first, a, live@, list, clock::time_text(now)));
        assert(old_purged(a, b, *config, now));
        assert(delivered_purged(b, c, *config, now));
        assert(idle_swept(c, d, live@, *config, since, now));
    }
    r
}

/// Lets messages wait again that nobody settled in time, and deletes what has had
/// its time.
pub fn sweep(
    database: &mut Database,
    live: &TopicSubscribers,
    values: &mut CacheService,
    config: &Config,
    since: Option<u64>,
) -> (r: bool)
    requires
        old(database).wf(),
    ensures
        final(database).wf(),
        r == idle_due(*config, since),
        exists|now: UtcTime|
            now.valid() && #[trigger] sweep_done(
                *old(database),
                *final(database),
                live@,
                *config,
                since,
                now,
            ) && final(values).cache@ == cache::unswept::<CacheEntry>(
                old(values).cache@,
                clock::time_text(now),
            ) && final(values).lock@ == cache::unswept::<LockEntry>(
                old(values).lock@,
                clock::time_text(now),
            ),
{
    sweep_at(database, live, values, config, since, clock::now())
}

// -------------------------------------------------------------------- laws

/// With every limit switched off and no ephemeral topic, a sweep of the store
/// does nothing but let messages wait again that nobody settled in time.
pub proof fn law_a_sweep_without_limits_only_reclaims(
    before: Database,
    after: Database,
    live: Live,
    config: Config,
    since: Option<u64>,
    now: UtcTime,
)
    requires
        sweep_done(before, after, live, config, since, now),
        config.message_retention_days <= 0,
        config.delivered_retention_hours == 0,
        config.ephemeral_idle_hours == 0,
        config.consumer_ttl_secs == 0,
        forall|t: Seq<char>| #[trigger]
            before.topics@.contains_key(t) ==> before.topics@[t].persistence != "ephemeral"@,
    ensures
        exists|n: u64| #[trigger]
            retention::reclaimed(before, after, clock::time_text(now), n),
{
    let (n, first, list, a, b, c, d) = choose|
        n: u64,
        first: Database,
        list: Seq<Seq<char>>,
        a: Database,
        b: Database,
        c: Database,
        d: Database,
    |
        #![trigger retention::reclaimed(before, first, clock::time_text(now), n),
            unheard_dropped(first, a, live, list, clock::time_text(now)),
            old_purged(a, b, config, now),
            delivered_purged(b, c, config, now),
            idle_swept(c, d, live, config, since, now)]
        {
            &&& retention::reclaimed(before, first, clock::time_text(now), n)
            &&& are_ephemeral(first, list)
            &&& unheard_dropped(first, a, live, list, clock::time_text(now))
            &&& old_purged(a, b, config, now)
            &&& delivered_purged(b, c, config, now)
            &&& idle_swept(c, d, live, config, since, now)
            &&& consumers_swept(d, after, config, now)
        };
    assert(list.len() == 0) by {
        if list.len() > 0 {
            assert(list.contains(list[0]));
            assert(first.topics@.contains_key(list[0]));
        }
    }
    assert(after == first);
    assert(retention::reclaimed(before, after, clock::time_text(now), n));
}

/// No message is held by a worker whose time has run out.
pub open spec fn none_stale(rows: Seq<db::Rows>, now: Seq<char>) -> bool {
    forall|s: int, i: int|
        0 <= s < rows.len() && 0 <= i < rows[s].len() ==> !messages::stale(now)(
            #[trigger] rows[s][i],
        )
}

proof fn lemma_kept_none_stale(
    before: Seq<db::Rows>,
    after: Seq<db::Rows>,
    pred: spec_fn(messages::MessageView) -> bool,
    now: Seq<char>,
)
    requires
        none_stale(before, now),
        after == retention::kept_all(before, pred),
    ensures
        none_stale(after, now),
{
    assert forall|s: int, i: int|
        0 <= s < after.len() && 0 <= i < after[s].len() implies !messages::stale(now)(
        #[trigger] after[s][i],
    ) by {
        messages::lemma_kept_from(before[s], pred);
        let k = before[s].index_of(after[s][i]);
        assert(before[s].contains(after[s][i]));
        assert(before[s][k] == after[s][i]);
    }
}

proof fn lemma_dropped_none_stale(
    before: Database,
    after: Database,
    live: Live,
    list: Seq<Seq<char>>,
    now: Seq<char>,
)
    requires
        before.wf(),
        none_stale(before.rows(), now),
        unheard_dropped(before, after, live, list, now),
    ensures
        after.wf(),
        none_stale(after.rows(), now),
    decreases list.len(),
{
    if list.len() > 0 {
        let mid = choose|mid: Database|
            unheard_dropped(before, mid, live, list.drop_last(), now)
                && #[trigger] dropped_unless_heard(mid, after, live, list.last(), now);
        lemma_dropped_none_stale(before, mid, live, list.drop_last(), now);
        if !subscribers::covered(live, list.last()) {
            let rows = mid.rows();
            let next = after.rows();
            shard::law_every_topic_has_a_shard(list.last());
            assert forall|s: int, i: int|
                0 <= s < next.len() && 0 <= i < next[s].len() implies !messages::stale(now)(
                #[trigger] next[s][i],
            ) by {
                assert(next[s].len() == rows[s].len());
                assert(!messages::stale(now)(rows[s][i]));
            }
        }
    }
}

proof fn lemma_without_none_stale(rows: Seq<db::Rows>, names: Seq<Seq<char>>, now: Seq<char>)
    requires
        rows.len() == MESSAGE_SHARDS,
        none_stale(rows, now),
    ensures
        retention::rows_without(rows, names).len() == MESSAGE_SHARDS,
        none_stale(retention::rows_without(rows, names), now),
    decreases names.len(),
{
    if names.len() > 0 {
        shard::law_every_topic_has_a_shard(names.last());
        lemma_without_none_stale(rows, names.drop_last(), now);
        let rest = retention::rows_without(rows, names.drop_last());
        let at = shard::shard_of(names.last());
        let pred = messages::not_of_topic(names.last());
        let next = retention::rows_without(rows, names);
        assert forall|s: int, i: int|
            0 <= s < next.len() && 0 <= i < next[s].len() implies !messages::stale(now)(
            #[trigger] next[s][i],
        ) by {
            if s == at {
                messages::lemma_kept_from(rest[s], pred);
                let k = rest[s].index_of(next[s][i]);
                assert(rest[s].contains(next[s][i]));
                assert(rest[s][k] == next[s][i]);
            } else {
                assert(next[s] == rest[s]);
                assert(rest[s][i] == next[s][i]);
            }
        }
    }
}

/// After a sweep no worker holds a message beyond its time: what nobody settled
/// waits again, or is gone.
pub proof fn law_a_sweep_ends_overdue_claims(
    before: Database,
    after: Database,
    live: Live,
    config: Config,
    since: Option<u64>,
    now: UtcTime,
)
    requires
        before.wf(),
        sweep_done(before, after, live, config, since, now),
    ensures
        none_stale(after.rows(), clock::time_text(now)),
{
    let at = clock::time_text(now);
    let (n, first, list, a, b, c, d) = choose|
        n: u64,
        first: Database,
        list: Seq<Seq<char>>,
        a: Database,
        b: Database,
        c: Database,
        d: Database,
    |
        #![trigger retention::reclaimed(before, first, clock::time_text(now), n),
            unheard_dropped(first, a, live, list, clock::time_text(now)),
            old_purged(a, b, config, now),
            delivered_purged(b, c, config, now),
            idle_swept(c, d, live, config, since, now)]
        {
            &&& retention::reclaimed(before, first, clock::time_text(now), n)
            &&& are_ephemeral(first, list)
            &&& unheard_dropped(first, a, live, list, clock::time_text(now))
            &&& old_purged(a, b, config, now)
            &&& delivered_purged(b, c, config, now)
            &&& idle_swept(c, d, live, config, since, now)
            &&& consumers_swept(d, after, config, now)
        };
    assert(none_stale(first.rows(), at));
    lemma_dropped_none_stale(first, a, live, list, at);
    if config.message_retention_days > 0 {
        let cutoff = clock::time_text(
            time_before(now, config.message_retention_days as int, 86400),
        );
        lemma_kept_none_stale(a.rows(), b.rows(), messages::not_created_before(cutoff), at);
    }
    if config.delivered_retention_hours > 0 {
        let cutoff = clock::time_text(
            time_before(now, config.delivered_retention_hours as int, 3600),
        );
        lemma_kept_none_stale(b.rows(), c.rows(), messages::not_delivered_before(cutoff), at);
    }
    if idle_due(config, since) {
        let cutoff = clock::time_text(time_before(now, config.ephemeral_idle_hours as int, 3600));
        let (keep, m) = choose|keep: Seq<Seq<char>>, m: usize|
            {
                &&& forall|t: Seq<char>| #[trigger] keep.contains(t) <==> live.contains_key(t)
                &&& #[trigger] retention::idle_purged(c, d, cutoff, keep, at, m)
            };
        assert(retention::idle_purged(c, d, cutoff, keep, at, m));
        let topics = db::topics_flushed(c, at);
        let names = choose|names: Seq<Seq<char>>|
            {
                &&& #[trigger] retention::are_idle(topics, c.consumers@, cutoff, keep, names)
                &&& d.rows() == retention::rows_without(c.rows(), names)
            };
        lemma_without_none_stale(c.rows(), names, at);
    }
}

/// A message that is posted downstream belongs to a topic that nobody receives.
pub proof fn law_only_unheard_messages_go_downstream(
    before: Database,
    after: Database,
    live: Live,
    visibility: u64,
    now: UtcTime,
    lease: Seq<char>,
    message: ClaimedMessage,
)
    requires
        dispatched(before, after, live, visibility, now, lease, Some(message)),
    ensures
        !subscribers::covered(live, message@.topic),
        message@.lease == lease,
{
}

/// Where messages are kept for some days, a sweep deletes those that were created
/// earlier, and no other.
pub proof fn law_messages_are_kept_for_their_days(
    before: Database,
    after: Database,
    config: Config,
    now: UtcTime,
    s: int,
    m: messages::MessageView,
    created: UtcTime,
)
    requires
        before.wf(),
        old_purged(before, after, config, now),
        config.message_retention_days > 0,
        0 <= s < MESSAGE_SHARDS,
        before.rows()[s].contains(m),
        m.created_at == clock::time_text(created),
        time_before(now, config.message_retention_days as int, 86400).writable(),
        created.writable(),
    ensures
        after.rows()[s].contains(m) == !created.is_before(
            time_before(now, config.message_retention_days as int, 86400),
        ),
{
    let end = time_before(now, config.message_retention_days as int, 86400);
    let pred = messages::not_created_before(clock::time_text(end));
    clock::law_texts_sort_as_times(end, created);
    messages::lemma_kept_all(before.rows()[s], pred);
    messages::lemma_kept_from(before.rows()[s], pred);
    assert(after.rows()[s] == messages::kept(before.rows()[s], pred));
}

/// Where delivered messages are kept for some hours, a sweep deletes those that
/// were delivered earlier, and no other.
pub proof fn law_delivered_messages_are_kept_for_their_hours(
    before: Database,
    after: Database,
    config: Config,
    now: UtcTime,
    s: int,
    m: messages::MessageView,
    delivered: UtcTime,
)
    requires
        before.wf(),
        delivered_purged(before, after, config, now),
        config.delivered_retention_hours > 0,
        0 <= s < MESSAGE_SHARDS,
        before.rows()[s].contains(m),
        m.status == messages::MessageStatus::Delivered,
        m.delivered_at == Some(clock::time_text(delivered)),
        time_before(now, config.delivered_retention_hours as int, 3600).writable(),
        delivered.writable(),
    ensures
        after.rows()[s].contains(m) == !delivered.is_before(
            time_before(now, config.delivered_retention_hours as int, 3600),
        ),
{
    let end = time_before(now, config.delivered_retention_hours as int, 3600);
    let pred = messages::not_delivered_before(clock::time_text(end));
    clock::law_texts_sort_as_times(end, delivered);
    messages::lemma_kept_all(before.rows()[s], pred);
    messages::lemma_kept_from(before.rows()[s], pred);
    assert(after.rows()[s] == messages::kept(before.rows()[s], pred));
}

/// Where consumers are gone some seconds after they were seen, a sweep removes
/// those that were seen earlier, and no other.
pub proof fn law_consumers_stay_for_their_seconds(
    before: Database,
    after: Database,
    config: Config,
    now: UtcTime,
    c: consumers::ConsumerView,
    seen: UtcTime,
)
    requires
        consumers_swept(before, after, config, now),
        config.consumer_ttl_secs > 0,
        before.consumers@.contains(c),
        c.last_seen_at == clock::time_text(seen),
        time_before(now, config.consumer_ttl_secs as int, 1).writable(),
        seen.writable(),
    ensures
        after.consumers@.contains(c) == !seen.is_before(
            time_before(now, config.consumer_ttl_secs as int, 1),
        ),
{
    let end = time_before(now, config.consumer_ttl_secs as int, 1);
    clock::law_texts_sort_as_times(end, seen);
    consumers::lemma_consumers_kept(
        before.consumers@,
        consumers::not_seen_before(clock::time_text(end)),
        c,
    );
}

/// A consumer is shown as live for the seconds after it was seen, and not longer.
pub proof fn law_a_consumer_is_live_for_its_seconds(
    c: consumers::ConsumerView,
    ttl_secs: u64,
    now: UtcTime,
    seen: UtcTime,
)
    requires
        ttl_secs > 0,
        c.last_seen_at == clock::time_text(seen),
        clock::faithful(time_before(now, ttl_secs as int, 1)),
        time_before(now, ttl_secs as int, 1).writable(),
        seen.writable(),
    ensures
        snapshot::consumer_shown(c, stale_before(ttl_secs, now)).live == !seen.is_before(
            time_before(now, ttl_secs as int, 1),
        ),
{
    clock::law_texts_sort_as_times(time_before(now, ttl_secs as int, 1), seen);
}

/// So many units before now are so many seconds before now, as far as there are
/// times.
pub proof fn law_units_are_counted_in_seconds(now: UtcTime, n: int, unit: int)
    requires
        now.valid(),
        n >= 0,
        unit >= 1,
        now.secs - n * unit >= clock::FIRST_SECOND,
    ensures
        time_before(now, n, unit).secs == now.secs - n * unit,
        time_before(now, n, unit).nanos == now.nanos,
{
    assert(n * unit >= 0) by (nonlinear_arith)
        requires
            n >= 0,
            unit >= 1,
    ;
    clock::law_seconds_later_are_seconds_later(now, -(n * unit));
}

/// Without a time to live consumers stay until they leave.
pub proof fn law_without_a_time_to_live_consumers_stay(
    before: Database,
    after: Database,
    config: Config,
    now: UtcTime,
)
    requires
        consumers_swept(before, after, config, now),
    ensures
        stale_before(0, now) is None,
        config.consumer_ttl_secs == 0 ==> after == before,
        after.rows() == before.rows(),
{
}

} // verus!
