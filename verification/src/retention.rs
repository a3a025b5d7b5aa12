//! Housekeeping of the store: reclaiming, purging and clearing.
use vstd::prelude::*;
use vstd::string::*;

use crate::catalog;
use crate::clock;
use crate::clock::UtcTime;
use crate::consumers;
use crate::db;
use crate::db::Database;
use crate::messages;
use crate::messages::MessageView;
use crate::model::ClaimedMessage;
use crate::queue;
use crate::queue::BadAttributes;
use crate::shard;
use crate::shard::MESSAGE_SHARDS;
use crate::table;
use crate::text;
use crate::topic;

verus! {

/// A total as a counter.
pub open spec fn total_of(n: int) -> u64 {
    if n > u64::MAX {
        u64::MAX
    } else {
        n as u64
    }
}

fn add_total(total: u64, n: usize) -> (r: u64)
    ensures
        r == total_of(total + n),
{
    match total.checked_add(n as u64) {
        Some(sum) => sum,
        None => u64::MAX,
    }
}

/// The number of messages that satisfy `pred`, over all shards.
pub open spec fn count_all(rows: Seq<db::Rows>, pred: spec_fn(MessageView) -> bool) -> int
    decreases rows.len(),
{
    if rows.len() == 0 {
        0
    } else {
        count_all(rows.drop_last(), pred) + messages::count(rows.last(), pred)
    }
}

/// The number of messages that do not satisfy `pred`, over all shards.
pub open spec fn loss_all(rows: Seq<db::Rows>, pred: spec_fn(MessageView) -> bool) -> int
    decreases rows.len(),
{
    if rows.len() == 0 {
        0
    } else {
        loss_all(rows.drop_last(), pred) + (rows.last().len() - messages::count(
            rows.last(),
            pred,
        ))
    }
}

pub open spec fn changed_all(
    rows: Seq<db::Rows>,
    pred: spec_fn(MessageView) -> bool,
    change: spec_fn(MessageView) -> MessageView,
) -> Seq<db::Rows> {
    rows.map_values(|r: db::Rows| messages::changed(r, pred, change))
}

pub open spec fn kept_all(rows: Seq<db::Rows>, pred: spec_fn(MessageView) -> bool) -> Seq<db::Rows> {
    rows.map_values(|r: db::Rows| messages::kept(r, pred))
}

pub open spec fn reclaimed(before: Database, after: Database, now: Seq<char>, n: u64) -> bool {
    &&& queue::queue_only(before, after)
    &&& after.rows() == changed_all(before.rows(), messages::stale(now), messages::to_pending())
    &&& n == total_of(count_all(before.rows(), messages::stale(now)))
    &&& after.depths@ == (if n > 0 {
        db::depths_of(after.rows())
    } else {
        before.depths@
    })
}

/// Only the messages that satisfy `pred` are left. The depths are counted
/// afresh if `recount` and something was deleted.
pub open spec fn purged(
    before: Database,
    after: Database,
    pred: spec_fn(MessageView) -> bool,
    recount: bool,
    n: u64,
) -> bool {
    &&& queue::queue_only(before, after)
    &&& after.rows() == kept_all(before.rows(), pred)
    &&& n == total_of(loss_all(before.rows(), pred))
    &&& after.depths@ == (if recount && n > 0 {
        db::depths_of(after.rows())
    } else {
        before.depths@
    })
}

impl Database {
    /// Lets every message wait again whose worker has had it for too long;
    /// counts them.
    pub fn reclaim_stale_at(&mut self, now: &str) -> (r: u64)
        requires
            old(self).wf(),
        ensures
            reclaimed(*old(self), *final(self), now@, r),
    {
        let ghost before = *self;
        let ghost all = before.rows();
        let ghost pred = messages::stale(now@);
        let mut affected: u64 = 0;
        let mut s: usize = 0;
        proof {
            assert(all.take(0) =~= Seq::empty());
        }
        while s < MESSAGE_SHARDS
            invariant
                s <= MESSAGE_SHARDS,
                self.wf(),
                all == before.rows(),
                all.len() == MESSAGE_SHARDS,
                pred == messages::stale(now@),
                *self == (Database { shards: self.shards, ..before }),
                affected == total_of(count_all(all.take(s as int), pred)),
                forall|k: int|
                    0 <= k < MESSAGE_SHARDS ==> (#[trigger] self.shards@[k])@ == (if k < s {
                        messages::changed(all[k], pred, messages::to_pending())
                    } else {
                        all[k]
                    }),
            decreases MESSAGE_SHARDS - s,
        {
            proof {
                assert(all.take(s + 1).drop_last() =~= all.take(s as int));
                assert(all.take(s + 1).last() == all[s as int]);
                lemma_count_all_positive(all.take(s as int), pred);
            }
            let n: usize = self.shards[s].reclaim_stale(now);
            affected = add_total(affected, n);
            s = s + 1;
        }
        proof {
            assert(all.take(all.len() as int) =~= all);
            assert(self.rows() =~= changed_all(all, pred, messages::to_pending()));
        }
        if affected > 0 {
            self.refresh_queue_depths();
        }
        affected
    }

    /// Lets every message wait again whose worker has had it for too long now;
    /// counts them.
    pub fn reclaim_stale(&mut self) -> (r: u64)
        requires
            old(self).wf(),
        ensures
            exists|now: UtcTime|
                now.valid() && clock::faithful(now) && reclaimed(
                    *old(self),
                    *final(self),
                    #[trigger] clock::time_text(now),
                    r,
                ),
    {
        let now: String = clock::text_of(clock::now());
        self.reclaim_stale_at(now.as_str())
    }

    /// Deletes the messages created before `cutoff`; counts them.
    pub fn purge_older_than(&mut self, cutoff: &str) -> (r: u64)
        requires
            old(self).wf(),
        ensures
            purged(*old(self), *final(self), messages::not_created_before(cutoff@), true, r),
    {
        let ghost before = *self;
        let ghost all = before.rows();
        let ghost pred = messages::not_created_before(cutoff@);
        let mut affected: u64 = 0;
        let mut s: usize = 0;
        proof {
            assert(all.take(0) =~= Seq::empty());
        }
        while s < MESSAGE_SHARDS
            invariant
                s <= MESSAGE_SHARDS,
                self.wf(),
                all == before.rows(),
                all.len() == MESSAGE_SHARDS,
                pred == messages::not_created_before(cutoff@),
                *self == (Database { shards: self.shards, ..before }),
                affected == total_of(loss_all(all.take(s as int), pred)),
                forall|k: int|
                    0 <= k < MESSAGE_SHARDS ==> (#[trigger] self.shards@[k])@ == (if k < s {
                        messages::kept(all[k], pred)
                    } else {
                        all[k]
                    }),
            decreases MESSAGE_SHARDS - s,
        {
            proof {
                assert(all.take(s + 1).drop_last() =~= all.take(s as int));
                assert(all.take(s + 1).last() == all[s as int]);
                lemma_loss_all_positive(all.take(s as int), pred);
            }
            let n: usize = self.shards[s].purge_older_than(cutoff);
            affected = add_total(affected, n);
            s = s + 1;
        }
        proof {
            assert(all.take(all.len() as int) =~= all);
            assert(self.rows() =~= kept_all(all, pred));
        }
        if affected > 0 {
            self.refresh_queue_depths();
        }
        affected
    }

    /// Deletes the messages that were delivered before `cutoff`; counts them.
    /// Messages in another state stay.
    pub fn purge_delivered_older_than(&mut self, cutoff: &str) -> (r: u64)
        requires
            old(self).wf(),
        ensures
            purged(*old(self), *final(self), messages::not_delivered_before(cutoff@), false, r),
    {
        let ghost before = *self;
        let ghost all = before.rows();
        let ghost pred = messages::not_delivered_before(cutoff@);
        let mut affected: u64 = 0;
        let mut s: usize = 0;
        proof {
            assert(all.take(0) =~= Seq::empty());
        }
        while s < MESSAGE_SHARDS
            invariant
                s <= MESSAGE_SHARDS,
                self.wf(),
                all == before.rows(),
                all.len() == MESSAGE_SHARDS,
                pred == messages::not_delivered_before(cutoff@),
                *self == (Database { shards: self.shards, ..before }),
                affected == total_of(loss_all(all.take(s as int), pred)),
                forall|k: int|
                    0 <= k < MESSAGE_SHARDS ==> (#[trigger] self.shards@[k])@ == (if k < s {
                        messages::kept(all[k], pred)
                    } else {
                        all[k]
                    }),
            decreases MESSAGE_SHARDS - s,
        {
            proof {
                assert(all.take(s + 1).drop_last() =~= all.take(s as int));
                assert(all.take(s + 1).last() == all[s as int]);
                lemma_loss_all_positive(all.take(s as int), pred);
            }
            let n: usize = self.shards[s].purge_delivered_older_than(cutoff);
            affected = add_total(affected, n);
            s = s + 1;
        }
        proof {
            assert(all.take(all.len() as int) =~= all);
            assert(self.rows() =~= kept_all(all, pred));
        }
        affected
    }
}

proof fn lemma_count_all_positive(rows: Seq<db::Rows>, pred: spec_fn(MessageView) -> bool)
    ensures
        count_all(rows, pred) >= 0,
    decreases rows.len(),
{
    if rows.len() > 0 {
        lemma_count_all_positive(rows.drop_last(), pred);
    }
}

proof fn lemma_loss_all_positive(rows: Seq<db::Rows>, pred: spec_fn(MessageView) -> bool)
    ensures
        loss_all(rows, pred) >= 0,
    decreases rows.len(),
{
    if rows.len() > 0 {
        lemma_loss_all_positive(rows.drop_last(), pred);
        messages::lemma_kept_from(rows.last(), pred);
    }
}

// -------------------------------------------------------------------- clearing

/// The messages after clearing by `filter`: with a wildcard every shard is
/// cleared, else the shard of the topic.
pub open spec fn rows_cleared(rows: Seq<db::Rows>, filter: Seq<char>) -> Seq<db::Rows> {
    if topic::wild(filter) {
        kept_all(rows, messages::not_picked(filter))
    } else {
        let s = shard::shard_of(filter);
        rows.update(s, messages::kept(rows[s], messages::not_picked(filter)))
    }
}

pub open spec fn number_cleared(rows: Seq<db::Rows>, filter: Seq<char>) -> u64 {
    if topic::wild(filter) {
        total_of(loss_all(rows, messages::not_picked(filter)))
    } else {
        let own = rows[shard::shard_of(filter)];
        total_of(own.len() - messages::count(own, messages::not_picked(filter)))
    }
}

/// The messages that a filter names are deleted and the counters of its topics
/// start again.
pub open spec fn cleared(
    before: Database,
    after: Database,
    filter: Seq<char>,
    now: Seq<char>,
    n: u64,
) -> bool {
    &&& after.rows() == rows_cleared(before.rows(), filter)
    &&& n == number_cleared(before.rows(), filter)
    &&& after.topics@ == table::mapped(
        db::topics_flushed(before, now),
        catalog::reset_by(filter),
    )
    &&& after.stats@ == Map::<Seq<char>, catalog::TopicStatsDelta>::empty()
    &&& after.depths@ == db::depths_of(after.rows())
    &&& after == (Database {
        shards: after.shards,
        topics: after.topics,
        stats: after.stats,
        depths: after.depths,
        ..before
    })
    &&& after.wf()
}

impl Database {
    /// Deletes the messages that a filter names and resets the counters of its
    /// topics; counts the messages.
    pub fn clear_topic_messages_at(&mut self, filter: &str, now: &str) -> (r: u64)
        requires
            old(self).wf(),
        ensures
            cleared(*old(self), *final(self), filter@, now@, r),
    {
        let ghost first = *self;
        self.flush_topic_stats_at(now);
        let ghost before = *self;
        let ghost all = before.rows();
        let ghost pred = messages::not_picked(filter@);
        let mut deleted: u64 = 0;
        if !topic::is_wildcard_filter(filter) {
            let s: usize = shard::topic_shard(filter);
            proof {
                assert(all[s as int] == before.shards@[s as int]@);
            }
            let n: usize = self.shards[s].clear(filter);
            deleted = add_total(0, n);
            proof {
                assert(self.rows() =~= rows_cleared(all, filter@));
            }
        } else {
            let mut s: usize = 0;
            proof {
                assert(all.take(0) =~= Seq::empty());
            }
            while s < MESSAGE_SHARDS
                invariant
                    s <= MESSAGE_SHARDS,
                    self.wf(),
                    all == before.rows(),
                    all.len() == MESSAGE_SHARDS,
                    pred == messages::not_picked(filter@),
                    *self == (Database { shards: self.shards, ..before }),
                    deleted == total_of(loss_all(all.take(s as int), pred)),
                    forall|k: int|
                        0 <= k < MESSAGE_SHARDS ==> (#[trigger] self.shards@[k])@ == (if k < s {
                            messages::kept(all[k], pred)
                        } else {
                            all[k]
                        }),
                decreases MESSAGE_SHARDS - s,
            {
                proof {
                    assert(all.take(s + 1).drop_last() =~= all.take(s as int));
                    assert(all.take(s + 1).last() == all[s as int]);
                    lemma_loss_all_positive(all.take(s as int), pred);
                }
                let n: usize = self.shards[s].clear(filter);
                deleted = add_total(deleted, n);
                s = s + 1;
            }
            proof {
                assert(all.take(all.len() as int) =~= all);
                assert(self.rows() =~= kept_all(all, pred));
            }
        }
        catalog::reset_counts(&mut self.topics, filter);
        self.refresh_queue_depths();
        deleted
    }

    /// Deletes the messages that a filter names and resets the counters of its
    /// topics, now; counts the messages.
    pub fn clear_topic_messages(&mut self, filter: &str) -> (r: u64)
        requires
            old(self).wf(),
        ensures
            exists|now: UtcTime|
                now.valid() && cleared(
                    *old(self),
                    *final(self),
                    filter@,
                    #[trigger] clock::time_text(now),
                    r,
                ),
    {
        let now: String = clock::text_of(clock::now());
        self.clear_topic_messages_at(filter, now.as_str())
    }
}

/// Clearing a topic leaves the messages of every other topic.
pub proof fn law_clearing_a_topic_spares_the_others(rows: Seq<db::Rows>, topic: Seq<char>, s: int)
    requires
        rows.len() == MESSAGE_SHARDS,
        0 <= s < MESSAGE_SHARDS,
        !topic::wild(topic),
    ensures
        forall|i: int|
            0 <= i < rows[s].len() && (#[trigger] rows[s][i]).topic != topic ==> rows_cleared(
                rows,
                topic,
            )[s].contains(rows[s][i]),
        forall|i: int|
            0 <= i < rows_cleared(rows, topic)[shard::shard_of(topic)].len() ==> (
            #[trigger] rows_cleared(rows, topic)[shard::shard_of(topic)][i]).topic != topic,
{
    shard::law_every_topic_has_a_shard(topic);
    messages::lemma_kept_all(rows[s], messages::not_picked(topic));
    messages::lemma_kept_from(rows[shard::shard_of(topic)], messages::not_picked(topic));
    assert forall|i: int|
        0 <= i < rows[s].len() && (#[trigger] rows[s][i]).topic != topic implies rows_cleared(
        rows,
        topic,
    )[s].contains(rows[s][i]) by {
        assert(rows[s].contains(rows[s][i]));
        assert(messages::not_picked(topic)(rows[s][i]));
    }
}

// ------------------------------------------------------------ idle ephemeral

/// An implicit ephemeral topic that was not seen since `cutoff`, that no
/// consumer serves and that is not to be kept.
pub open spec fn is_idle(
    topics: catalog::Topics,
    rows: Seq<consumers::ConsumerView>,
    cutoff: Seq<char>,
    keep: Seq<Seq<char>>,
    topic: Seq<char>,
) -> bool {
    &&& topics.contains_key(topic)
    &&& topics[topic].persistence == "ephemeral"@
    &&& !topics[topic].configured
    &&& topics[topic].last_seen_at matches Some(seen) && text::text_less(seen, cutoff)
    &&& !consumers::has_consumer(rows, topic)
    &&& !keep.contains(topic)
}

/// The names of the idle topics.
pub open spec fn are_idle(
    topics: catalog::Topics,
    rows: Seq<consumers::ConsumerView>,
    cutoff: Seq<char>,
    keep: Seq<Seq<char>>,
    names: Seq<Seq<char>>,
) -> bool {
    &&& text::ascending(names)
    &&& forall|t: Seq<char>| #[trigger]
        names.contains(t) <==> is_idle(topics, rows, cutoff, keep, t)
}

/// The messages without those of some topics.
pub open spec fn rows_without(rows: Seq<db::Rows>, names: Seq<Seq<char>>) -> Seq<db::Rows>
    decreases names.len(),
{
    if names.len() == 0 {
        rows
    } else {
        let rest = rows_without(rows, names.drop_last());
        let s = shard::shard_of(names.last());
        rest.update(s, messages::kept(rest[s], messages::not_of_topic(names.last())))
    }
}

/// The entries of `m` that are not among `names`.
pub open spec fn without<V>(m: Map<Seq<char>, V>, names: Seq<Seq<char>>) -> Map<Seq<char>, V> {
    Map::new(|k: Seq<char>| m.contains_key(k) && !names.contains(k), |k: Seq<char>| m[k])
}

proof fn lemma_without_step<V>(m: Map<Seq<char>, V>, names: Seq<Seq<char>>, n: int)
    requires
        0 <= n < names.len(),
    ensures
        without(m, names.take(n + 1)) == without(m, names.take(n)).remove(names[n]),
{
    let then = names.take(n);
    let now = names.take(n + 1);
    assert forall|k: Seq<char>| #[trigger] now.contains(k) <==> (then.contains(k) || k
        == names[n]) by {
        assert(now[n] == names[n]);
        if then.contains(k) {
            assert(now[then.index_of(k)] == k);
        }
        if now.contains(k) && k != names[n] {
            assert(then[now.index_of(k)] == k);
        }
    }
    assert(without(m, now) =~= without(m, then).remove(names[n]));
}

/// The idle topics are forgotten, with their messages, depths and settings.
pub open spec fn idle_purged(
    before: Database,
    after: Database,
    cutoff: Seq<char>,
    keep: Seq<Seq<char>>,
    now: Seq<char>,
    n: usize,
) -> bool {
    let topics = db::topics_flushed(before, now);
    exists|names: Seq<Seq<char>>|
        {
            &&& #[trigger] are_idle(topics, before.consumers@, cutoff, keep, names)
            &&& n == names.len()
            &&& after.rows() == rows_without(before.rows(), names)
            &&& after.topics@ == without(topics, names)
            &&& after.depths@ == without(before.depths@, names)
            &&& after.configs@ == without(before.configs@, names)
            &&& after.stats@ == Map::<Seq<char>, catalog::TopicStatsDelta>::empty()
            &&& after == (Database {
                shards: after.shards,
                topics: after.topics,
                depths: after.depths,
                configs: after.configs,
                stats: after.stats,
                ..before
            })
            &&& after.wf()
        }
}

impl Database {
    /// The names of the idle topics.
    fn idle_topics(&self, cutoff: &str, keep: &Vec<String>) -> (r: Vec<String>)
        ensures
            are_idle(
                self.topics@,
                self.consumers@,
                cutoff@,
                text::texts(keep@),
                text::texts(r@),
            ),
    {
        let n: usize = self.topics.len();
        let ghost keys = self.topics.key_seq();
        let ghost topics = self.topics@;
        let mut out: Vec<String> = Vec::new();
        let mut i: usize = 0;
        while i < n
            invariant
                i <= n,
                n == keys.len(),
                keys == self.topics.key_seq(),
                topics == self.topics@,
                text::ascending(text::texts(out@)),
                forall|t: Seq<char>| #[trigger]
                    text::texts(out@).contains(t) <==> (keys.take(i as int).contains(t) && is_idle(
                        topics,
                        self.consumers@,
                        cutoff@,
                        text::texts(keep@),
                        t,
                    )),
            decreases n - i,
        {
            proof {
                text::lemma_take_grows(keys, i as int);
            }
            let name: &str = self.topics.key_at(i).as_str();
            let row: &catalog::TopicRow = self.topics.value_at(i);
            let unseen: bool = match &row.last_seen_at {
                Some(seen) => text::less(seen.as_str(), cutoff),
                None => false,
            };
            if unseen && !row.configured && text::text_eq(row.persistence.as_str(), "ephemeral")
                && !self.consumers.serves(name) && !text::contains_text(keep, name) {
                text::insert_sorted(&mut out, name.to_string());
            }
            i = i + 1;
        }
        proof {
            assert(keys.take(n as int) =~= keys);
        }
        out
    }

    /// Forgets implicit ephemeral topics that have been idle since `cutoff`.
    /// Topics in `keep`, topics with consumers and configured topics stay.
    pub fn purge_idle_ephemeral_at(&mut self, cutoff: &str, keep: &Vec<String>, now: &str) -> (r:
        usize)
        requires
            old(self).wf(),
        ensures
            idle_purged(*old(self), *final(self), cutoff@, text::texts(keep@), now@, r),
    {
        let ghost first = *self;
        self.flush_topic_stats_at(now);
        let ghost before = *self;
        let names: Vec<String> = self.idle_topics(cutoff, keep);
        let ghost list = text::texts(names@);
        let mut i: usize = 0;
        proof {
            assert(list.take(0) =~= Seq::empty());
            assert(without(before.topics@, list.take(0)) =~= before.topics@);
            assert(without(before.depths@, list.take(0)) =~= before.depths@);
            assert(without(before.configs@, list.take(0)) =~= before.configs@);
        }
        while i < names.len()
            invariant
                i <= names@.len(),
                self.wf(),
                before.wf(),
                list == text::texts(names@),
                self.rows() == rows_without(before.rows(), list.take(i as int)),
                self.topics@ == without(before.topics@, list.take(i as int)),
                self.depths@ == without(before.depths@, list.take(i as int)),
                self.configs@ == without(before.configs@, list.take(i as int)),
                *self == (Database {
                    shards: self.shards,
                    topics: self.topics,
                    depths: self.depths,
                    configs: self.configs,
                    ..before
                }),
            decreases names.len() - i,
        {
            let name: &str = names[i].as_str();
            let s: usize = shard::topic_shard(name);
            let ghost rows = self.rows();
            proof {
                assert(list[i as int] == name@);
                assert(list.take(i + 1).drop_last() =~= list.take(i as int));
                assert(list.take(i + 1).last() == name@);
                lemma_without_step(before.topics@, list, i as int);
                lemma_without_step(before.depths@, list, i as int);
                lemma_without_step(before.configs@, list, i as int);
                assert(rows[s as int] == self.shards@[s as int]@);
            }
            self.shards[s].delete_topic(name);
            proof {
                assert(self.rows() =~= rows.update(
                    s as int,
                    messages::kept(rows[s as int], messages::not_of_topic(name@)),
                ));
            }
            self.topics.take(name);
            self.depths.take(name);
            self.configs.take(name);
            i = i + 1;
        }
        proof {
            assert(list.take(list.len() as int) =~= list);
            assert(are_idle(
                db::topics_flushed(first, now@),
                first.consumers@,
                cutoff@,
                text::texts(keep@),
                list,
            ));
        }
        names.len()
    }

    /// Forgets implicit ephemeral topics that have been idle since `cutoff`.
    pub fn purge_idle_ephemeral(&mut self, cutoff: &str, keep: &Vec<String>) -> (r: usize)
        requires
            old(self).wf(),
        ensures
            exists|now: UtcTime|
                now.valid() && idle_purged(
                    *old(self),
                    *final(self),
                    cutoff@,
                    text::texts(keep@),
                    #[trigger] clock::time_text(now),
                    r,
                ),
    {
        let now: String = clock::text_of(clock::now());
        self.purge_idle_ephemeral_at(cutoff, keep, now.as_str())
    }
}

/// The idle purge never removes a configured topic, a topic to be kept, a topic
/// with a consumer, or a topic whose messages are stored.
pub proof fn law_idle_purge_spares_what_is_used(
    before: Database,
    after: Database,
    cutoff: Seq<char>,
    keep: Seq<Seq<char>>,
    now: Seq<char>,
    n: usize,
    topic: Seq<char>,
)
    requires
        idle_purged(before, after, cutoff, keep, now, n),
        db::topics_flushed(before, now).contains_key(topic),
        ({
            let row = db::topics_flushed(before, now)[topic];
            row.configured || keep.contains(topic) || consumers::has_consumer(
                before.consumers@,
                topic,
            ) || row.persistence != "ephemeral"@
        }),
    ensures
        after.topics@.contains_key(topic),
        after.topics@[topic] == db::topics_flushed(before, now)[topic],
{
    let topics = db::topics_flushed(before, now);
    let names = choose|names: Seq<Seq<char>>|
        {
            &&& #[trigger] are_idle(topics, before.consumers@, cutoff, keep, names)
            &&& n == names.len()
            &&& after.rows() == rows_without(before.rows(), names)
            &&& after.topics@ == without(topics, names)
            &&& after.depths@ == without(before.depths@, names)
            &&& after.configs@ == without(before.configs@, names)
            &&& after.stats@ == Map::<Seq<char>, catalog::TopicStatsDelta>::empty()
            &&& after == (Database {
                shards: after.shards,
                topics: after.topics,
                depths: after.depths,
                configs: after.configs,
                stats: after.stats,
                ..before
            })
            &&& after.wf()
        };
    assert(!names.contains(topic));
}

/// A message that a worker has claimed stays with the worker for the seconds of
/// the claim: until then no reclaiming takes it away, and from then on every
/// reclaiming lets it wait again, ready at once.
pub proof fn law_a_claim_lasts_for_its_seconds(
    before: Database,
    mid: Database,
    after: Database,
    s: int,
    want: messages::WantView,
    then: UtcTime,
    visibility: u64,
    lease: Seq<char>,
    r: Result<Option<ClaimedMessage>, BadAttributes>,
    now: UtcTime,
    n: u64,
)
    requires
        before.wf(),
        0 <= s < MESSAGE_SHARDS,
        queue::claimed_on(
            before,
            mid,
            s,
            want,
            clock::time_text(then),
            lease,
            queue::visible_text(then, visibility),
            r,
        ),
        queue::claim_faithful(then, visibility),
        messages::claim_place(before.rows()[s], want, clock::time_text(then)) is Some,
        reclaimed(mid, after, clock::time_text(now), n),
        clock::time_after(then, queue::visible_seconds(visibility) as int).writable(),
        now.writable(),
    ensures
        ({
            let i = messages::claim_place(before.rows()[s], want, clock::time_text(then))->0;
            let end = clock::time_after(then, queue::visible_seconds(visibility) as int);
            let held = mid.rows()[s][i];
            let row = after.rows()[s][i];
            &&& held == messages::as_claimed(
                before.rows()[s][i],
                lease,
                queue::visible_text(then, visibility),
            )
            &&& now.is_before(end) ==> row == held
            &&& !now.is_before(end) ==> row == messages::as_pending(held) && messages::ready(
                row,
                clock::time_text(now),
            )
        }),
{
    let i = messages::claim_place(before.rows()[s], want, clock::time_text(then))->0;
    let end = clock::time_after(then, queue::visible_seconds(visibility) as int);
    messages::lemma_oldest_place(
        before.rows()[s],
        messages::claimable(want, clock::time_text(then)),
    );
    clock::law_texts_sort_as_times(end, now);
    assert(before.rows().len() == MESSAGE_SHARDS);
    assert(mid.rows()[s][i] == messages::as_claimed(
        before.rows()[s][i],
        lease,
        queue::visible_text(then, visibility),
    ));
    assert(after.rows()[s] == messages::changed(
        mid.rows()[s],
        messages::stale(clock::time_text(now)),
        messages::to_pending(),
    ));
}

/// An implicit ephemeral topic that nobody uses is forgotten exactly where it was
/// seen last before the time since when topics count as idle.
pub proof fn law_a_topic_idles_from_when_it_was_seen(
    topics: catalog::Topics,
    rows: Seq<consumers::ConsumerView>,
    since: UtcTime,
    keep: Seq<Seq<char>>,
    topic: Seq<char>,
    seen: UtcTime,
)
    requires
        clock::faithful(since),
        since.writable(),
        seen.writable(),
        topics.contains_key(topic),
        topics[topic].last_seen_at == Some(clock::time_text(seen)),
        topics[topic].persistence == "ephemeral"@,
        !topics[topic].configured,
        !consumers::has_consumer(rows, topic),
        !keep.contains(topic),
    ensures
        is_idle(topics, rows, clock::time_text(since), keep, topic) == seen.is_before(since),
{
    clock::law_texts_sort_as_times(since, seen);
}

} // verus!
