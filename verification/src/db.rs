//! The broker's store: sharded messages, the topic catalogue, consumers and
//! counters.
//!
//! Operations that need the time or a random identifier come twice: under the
//! plain name the operation reads the clock, and under a name with `_at` it is
//! given what it needs.
use vstd::prelude::*;
use vstd::string::*;

use crate::catalog;
use crate::catalog::{Depth, MessageTrendDelta, TopicRow, TopicStatsDelta};
use crate::clock;
use crate::clock::UtcTime;
use crate::consumers::ConsumerTable;
use crate::messages;
use crate::messages::{MessageStatus, MessageTable};
use crate::model;
use crate::model::{PersistenceMode, TopicConfig};
use crate::shard;
use crate::shard::MESSAGE_SHARDS;
use crate::table;
use crate::table::TextMap;
use crate::text;
use crate::topic;

verus! {

/// The store.
pub struct Database {
    /// The messages, by shard.
    pub shards: Vec<MessageTable>,
    /// The catalogue, by topic.
    pub topics: TextMap<TopicRow>,
    /// The registered consumers.
    pub consumers: ConsumerTable,
    /// Message counts, by minute.
    pub trends: TextMap<MessageTrendDelta>,
    /// Settings that were looked up, by topic.
    pub configs: TextMap<TopicConfig>,
    /// Waiting and held messages, by topic.
    pub depths: TextMap<Depth>,
    /// Where the next search over all shards starts.
    pub cursor: usize,
    /// Counts that the catalogue does not hold yet, by topic.
    pub stats: TextMap<TopicStatsDelta>,
    /// Counts that the trends do not hold yet, by minute.
    pub trend_deltas: TextMap<MessageTrendDelta>,
}

pub type Rows = Seq<messages::MessageView>;

pub open spec fn tables(shards: Seq<MessageTable>) -> Seq<Rows> {
    shards.map_values(|t: MessageTable| t@)
}

impl Database {
    /// There is a table for every shard.
    pub open spec fn wf(&self) -> bool {
        self.shards@.len() == MESSAGE_SHARDS
    }

    /// The messages, by shard.
    pub open spec fn rows(&self) -> Seq<Rows> {
        tables(self.shards@)
    }

    /// An empty store.
    pub fn new() -> (r: Database)
        ensures
            r.wf(),
            forall|s: int| 0 <= s < MESSAGE_SHARDS ==> (#[trigger] r.rows()[s]).len() == 0,
            r.topics@ == Map::<Seq<char>, catalog::TopicRowView>::empty(),
            r.consumers@.len() == 0,
            r.trends@ == Map::<Seq<char>, MessageTrendDelta>::empty(),
            r.configs@ == Map::<Seq<char>, model::TopicConfigView>::empty(),
            r.depths@ == Map::<Seq<char>, Depth>::empty(),
            r.cursor == 0,
            r.stats@ == Map::<Seq<char>, TopicStatsDelta>::empty(),
            r.trend_deltas@ == Map::<Seq<char>, MessageTrendDelta>::empty(),
    {
        let mut shards: Vec<MessageTable> = Vec::new();
        let mut i: usize = 0;
        while i < MESSAGE_SHARDS
            invariant
                i <= MESSAGE_SHARDS,
                shards@.len() == i,
                forall|s: int| 0 <= s < i ==> (#[trigger] shards@[s])@.len() == 0,
            decreases MESSAGE_SHARDS - i,
        {
            shards.push(MessageTable::new());
            i = i + 1;
        }
        Database {
            shards,
            topics: TextMap::new(),
            consumers: ConsumerTable::new(),
            trends: TextMap::new(),
            configs: TextMap::new(),
            depths: TextMap::new(),
            cursor: 0,
            stats: TextMap::new(),
            trend_deltas: TextMap::new(),
        }
    }
}

// ------------------------------------------------------------ topic settings

/// The settings of a topic: those looked up before, else those of the
/// catalogue.
pub open spec fn config_of(db: Database, topic: Seq<char>) -> model::TopicConfigView {
    if db.configs@.contains_key(topic) {
        db.configs@[topic]
    } else {
        catalog::config_in(db.topics@, topic)
    }
}

/// The settings of a topic were looked up.
pub open spec fn config_looked_up(before: Database, after: Database, topic: Seq<char>) -> bool {
    &&& after.configs@ == before.configs@.insert(topic, config_of(before, topic))
    &&& after == (Database { configs: after.configs, ..before })
}

/// The settings that were looked up are those of the catalogue.
pub open spec fn coherent(db: Database) -> bool {
    forall|t: Seq<char>| #[trigger]
        db.configs@.contains_key(t) ==> db.configs@[t] == catalog::config_in(db.topics@, t)
}

pub open spec fn subscription_noted(
    before: Database,
    after: Database,
    topic: Seq<char>,
    now: Seq<char>,
) -> bool {
    &&& after.topics@ == catalog::subscription_noted(before.topics@, topic, now)
    &&& after.configs@ == before.configs@.remove(topic)
    &&& after == (Database { topics: after.topics, configs: after.configs, ..before })
}

/// The catalogue after a list of explicit configurations.
pub open spec fn all_configured(
    topics: catalog::Topics,
    configs: Seq<model::TopicConfigView>,
    now: Seq<char>,
) -> catalog::Topics
    decreases configs.len(),
{
    if configs.len() == 0 {
        topics
    } else {
        catalog::topic_configured(
            all_configured(topics, configs.drop_last(), now),
            configs.last(),
            now,
        )
    }
}

/// The looked-up settings after a list of explicit configurations.
pub open spec fn all_cached(
    cache: Map<Seq<char>, model::TopicConfigView>,
    configs: Seq<model::TopicConfigView>,
) -> Map<Seq<char>, model::TopicConfigView>
    decreases configs.len(),
{
    if configs.len() == 0 {
        cache
    } else {
        all_cached(cache, configs.drop_last()).insert(configs.last().topic, configs.last())
    }
}

pub open spec fn config_views(configs: Seq<TopicConfig>) -> Seq<model::TopicConfigView> {
    configs.map_values(|c: TopicConfig| c@)
}

/// The settings of every topic of the catalogue, by name.
pub open spec fn is_catalogue(topics: catalog::Topics, list: Seq<model::TopicConfigView>) -> bool {
    let names = list.map_values(|c: model::TopicConfigView| c.topic);
    &&& text::ascending(names)
    &&& forall|t: Seq<char>| #[trigger] names.contains(t) <==> topics.contains_key(t)
    &&& forall|i: int|
        0 <= i < list.len() ==> #[trigger] list[i] == catalog::row_config(
            list[i].topic,
            topics[list[i].topic],
        )
}

pub open spec fn topics_configured(
    before: Database,
    after: Database,
    configs: Seq<model::TopicConfigView>,
    list: Seq<model::TopicConfigView>,
    now: Seq<char>,
) -> bool {
    &&& after.topics@ == all_configured(before.topics@, configs, now)
    &&& after.configs@ == all_cached(before.configs@, configs)
    &&& after == (Database { topics: after.topics, configs: after.configs, ..before })
    &&& is_catalogue(after.topics@, list)
}

impl Database {
    /// The settings of a topic; a topic that nobody configured is broadcast and
    /// ephemeral.
    pub fn topic_config(&mut self, topic: &str) -> (r: TopicConfig)
        ensures
            r@ == config_of(*old(self), topic@),
            config_looked_up(*old(self), *final(self), topic@),
    {
        match self.configs.get(topic) {
            Some(config) => {
                let found: TopicConfig = config.clone();
                proof {
                    assert(self.configs@.insert(topic@, found@) =~= self.configs@);
                }
                return found;
            },
            None => {},
        }
        let config: TopicConfig = match self.topics.get(topic) {
            Some(row) => row.config(topic),
            None => TopicConfig::implicit(topic),
        };
        self.configs.set(topic.to_string(), config.clone());
        config
    }

    /// Whether the messages of a topic are stored.
    pub fn topic_persistence(&mut self, topic: &str) -> (r: PersistenceMode)
        ensures
            r == config_of(*old(self), topic@).persistence,
            config_looked_up(*old(self), *final(self), topic@),
    {
        self.topic_config(topic).persistence
    }

    /// Records an MQTT subscription. Wildcard filters remain in the catalogue so
    /// that the idle purge cannot remove them; exact, unconfigured topics keep
    /// the implicit ephemeral policy. An explicit configuration always wins.
    pub fn note_subscribed_topic_at(&mut self, topic: &str, now: &str)
        ensures
            subscription_noted(*old(self), *final(self), topic@, now@),
    {
        catalog::note_subscription(&mut self.topics, topic, now);
        self.configs.take(topic);
    }

    /// Records an MQTT subscription now.
    pub fn note_subscribed_topic(&mut self, topic: &str)
        ensures
            exists|now: UtcTime|
                now.valid() && subscription_noted(
                    *old(self),
                    *final(self),
                    topic@,
                    #[trigger] clock::time_text(now),
                ),
    {
        let now: String = clock::text_of(clock::now());
        self.note_subscribed_topic_at(topic, now.as_str());
    }

    /// The topics whose messages are not stored.
    pub fn ephemeral_topics(&self) -> (r: Vec<String>)
        ensures
            text::ascending(text::texts(r@)),
            forall|t: Seq<char>| #[trigger]
                text::texts(r@).contains(t) <==> (self.topics@.contains_key(t)
                    && self.topics@[t].persistence == "ephemeral"@),
    {
        let n: usize = self.topics.len();
        let ghost keys = self.topics.key_seq();
        let ghost topics = self.topics@;
        let mut out: Vec<String> = Vec::new();
        let mut i: usize = 0;
        while i < n
            invariant
                i <= n,
                n == keys.len(),
                keys == self.topics.key_seq(),
                topics == self.topics@,
                text::ascending(text::texts(out@)),
                forall|t: Seq<char>| #[trigger]
                    text::texts(out@).contains(t) <==> (keys.take(i as int).contains(t)
                        && topics[t].persistence == "ephemeral"@),
            decreases n - i,
        {
            proof {
                text::lemma_take_grows(keys, i as int);
            }
            if text::text_eq(self.topics.value_at(i).persistence.as_str(), "ephemeral") {
                text::insert_sorted(&mut out, self.topics.key_at(i).clone());
            }
            i = i + 1;
        }
        proof {
            assert(keys.take(n as int) =~= keys);
        }
        out
    }

    /// The settings of every topic of the catalogue, by name.
    pub fn list_topic_configs(&self) -> (r: Vec<TopicConfig>)
        ensures
            is_catalogue(self.topics@, config_views(r@)),
    {
        let names: Vec<String> = self.topics.sorted_keys();
        let ghost topics = self.topics@;
        let mut out: Vec<TopicConfig> = Vec::new();
        let mut i: usize = 0;
        while i < names.len()
            invariant
                i <= names@.len(),
                out@.len() == i,
                topics == self.topics@,
                forall|t: Seq<char>| #[trigger]
                    text::texts(names@).contains(t) <==> topics.contains_key(t),
                forall|k: int|
                    0 <= k < i ==> (#[trigger] out@[k])@ == catalog::row_config(
                        names@[k]@,
                        topics[names@[k]@],
                    ),
            decreases names.len() - i,
        {
            let name: &str = names[i].as_str();
            proof {
                assert(text::texts(names@)[i as int] == name@);
                assert(text::texts(names@).contains(name@));
            }
            match self.topics.get(name) {
                Some(row) => out.push(row.config(name)),
                None => {},
            }
            i = i + 1;
        }
        proof {
            let list = config_views(out@);
            let listed = list.map_values(|c: model::TopicConfigView| c.topic);
            assert(listed =~= text::texts(names@));
            assert forall|k: int| 0 <= k < list.len() implies #[trigger] list[k]
                == catalog::row_config(list[k].topic, topics[list[k].topic]) by {
                assert(out@[k]@ == catalog::row_config(names@[k]@, topics[names@[k]@]));
            }
        }
        out
    }

    /// Records explicit configurations; lists the catalogue.
    pub fn configure_topics_at(&mut self, configs: &Vec<TopicConfig>, now: &str) -> (r: Vec<
        TopicConfig,
    >)
        ensures
            topics_configured(
                *old(self),
                *final(self),
                config_views(configs@),
                config_views(r@),
                now@,
            ),
    {
        let ghost before = *self;
        let ghost views = config_views(configs@);
        let mut i: usize = 0;
        proof {
            assert(views.take(0) =~= Seq::empty());
        }
        while i < configs.len()
            invariant
                i <= configs@.len(),
                views == config_views(configs@),
                self.topics@ == all_configured(before.topics@, views.take(i as int), now@),
                self.configs@ == all_cached(before.configs@, views.take(i as int)),
                *self == (Database { topics: self.topics, configs: self.configs, ..before }),
            decreases configs.len() - i,
        {
            proof {
                assert(views.take(i + 1).drop_last() =~= views.take(i as int));
                assert(views.take(i + 1).last() == configs@[i as int]@);
            }
            catalog::configure_topic(&mut self.topics, &configs[i], now);
            self.configs.set(configs[i].topic.clone(), configs[i].clone());
            i = i + 1;
        }
        proof {
            assert(views.take(views.len() as int) =~= views);
        }
        self.list_topic_configs()
    }

    /// Records explicit configurations now; lists the catalogue.
    pub fn configure_topics(&mut self, configs: &Vec<TopicConfig>) -> (r: Vec<TopicConfig>)
        ensures
            exists|now: UtcTime|
                now.valid() && topics_configured(
                    *old(self),
                    *final(self),
                    config_views(configs@),
                    config_views(r@),
                    #[trigger] clock::time_text(now),
                ),
    {
        let now: String = clock::text_of(clock::now());
        self.configure_topics_at(configs, now.as_str())
    }
}

// ------------------------------------------------------------------ counters

pub type Trends = Map<Seq<char>, MessageTrendDelta>;

pub open spec fn no_trend() -> MessageTrendDelta {
    MessageTrendDelta { accepted: 0, delivered: 0 }
}

pub open spec fn trend_in(trends: Trends, minute: Seq<char>) -> MessageTrendDelta {
    if trends.contains_key(minute) {
        trends[minute]
    } else {
        no_trend()
    }
}

/// The counts per minute after some messages were accepted and delivered.
pub open spec fn trend_noted(
    trends: Trends,
    minute: Seq<char>,
    accepted: i64,
    delivered: i64,
) -> Trends {
    if accepted == 0 && delivered == 0 {
        trends
    } else {
        trends.insert(
            minute,
            catalog::trend_sum(
                trend_in(trends, minute),
                MessageTrendDelta { accepted, delivered },
            ),
        )
    }
}

pub open spec fn no_stats() -> TopicStatsDelta {
    TopicStatsDelta { accepted: 0, duplicates: 0, delivered: 0 }
}

pub open spec fn stats_in(
    stats: Map<Seq<char>, TopicStatsDelta>,
    topic: Seq<char>,
) -> TopicStatsDelta {
    if stats.contains_key(topic) {
        stats[topic]
    } else {
        no_stats()
    }
}

/// The counts per topic after a change.
pub open spec fn stats_noted(
    stats: Map<Seq<char>, TopicStatsDelta>,
    topic: Seq<char>,
    delta: TopicStatsDelta,
) -> Map<Seq<char>, TopicStatsDelta> {
    stats.insert(topic, catalog::delta_sum(stats_in(stats, topic), delta))
}

/// Adds counts that the trends do not hold yet.
pub open spec fn add_trend() -> spec_fn(
    Option<MessageTrendDelta>,
    MessageTrendDelta,
) -> MessageTrendDelta {
    |old: Option<MessageTrendDelta>, delta: MessageTrendDelta|
        catalog::trend_sum(
            match old {
                Some(t) => t,
                None => no_trend(),
            },
            delta,
        )
}

/// Adds counts that the catalogue does not hold yet.
pub open spec fn add_stats(now: Seq<char>) -> spec_fn(
    Option<catalog::TopicRowView>,
    TopicStatsDelta,
) -> catalog::TopicRowView {
    |old: Option<catalog::TopicRowView>, delta: TopicStatsDelta|
        {
            let row = match old {
                Some(row) => row,
                None => catalog::fresh_topic(),
            };
            catalog::TopicRowView {
                accepted: catalog::sum(row.accepted, delta.accepted),
                duplicates: catalog::sum(row.duplicates, delta.duplicates),
                delivered: catalog::sum(row.delivered, delta.delivered),
                failed: catalog::sum(row.failed, 0),
                last_seen_at: Some(now),
                ..row
            }
        }
}

/// The catalogue once the outstanding counts are in it.
pub open spec fn topics_flushed(db: Database, now: Seq<char>) -> catalog::Topics {
    table::merged(db.topics@, db.stats@, add_stats(now))
}

pub open spec fn stats_flushed(before: Database, after: Database, now: Seq<char>) -> bool {
    &&& after.topics@ == topics_flushed(before, now)
    &&& after.stats@ == Map::<Seq<char>, TopicStatsDelta>::empty()
    &&& after == (Database { topics: after.topics, stats: after.stats, ..before })
}

pub open spec fn trends_flushed(before: Database, after: Database, cutoff: Seq<char>) -> bool {
    &&& after.trends@ == (if before.trend_deltas@ == Map::<
        Seq<char>,
        MessageTrendDelta,
    >::empty() {
        before.trends@
    } else {
        table::not_before(
            table::merged(before.trends@, before.trend_deltas@, add_trend()),
            cutoff,
        )
    })
    &&& after.trend_deltas@ == Map::<Seq<char>, MessageTrendDelta>::empty()
    &&& after == (Database { trends: after.trends, trend_deltas: after.trend_deltas, ..before })
}

/// The counts of a topic were changed, in the catalogue and in the trends.
pub open spec fn topic_stat_bumped(
    before: Database,
    after: Database,
    topic: Seq<char>,
    accepted: i64,
    duplicates: i64,
    delivered: i64,
    failed: i64,
    now: UtcTime,
) -> bool {
    &&& after.topics@ == catalog::topic_bumped(
        before.topics@,
        topic,
        accepted,
        duplicates,
        delivered,
        failed,
        clock::time_text(now),
    )
    &&& after.trend_deltas@ == trend_noted(
        before.trend_deltas@,
        clock::minute_text(now),
        accepted,
        delivered,
    )
    &&& after == (Database { topics: after.topics, trend_deltas: after.trend_deltas, ..before })
}

/// Counts for one minute.
#[derive(Debug)]
pub struct MessageTrendPoint {
    pub minute: String,
    pub accepted: i64,
    pub delivered: i64,
}

impl View for MessageTrendPoint {
    type V = (Seq<char>, MessageTrendDelta);

    open spec fn view(&self) -> (Seq<char>, MessageTrendDelta) {
        (
            self.minute@,
            MessageTrendDelta { accepted: self.accepted, delivered: self.delivered },
        )
    }
}

/// All counts from the minute `cutoff` on, outstanding ones included.
pub open spec fn trends_from(db: Database, cutoff: Seq<char>) -> Trends {
    table::not_before(table::merged(db.trends@, db.trend_deltas@, add_trend()), cutoff)
}

/// The counts of `trends`, by minute.
pub open spec fn is_timeline(trends: Trends, points: Seq<(Seq<char>, MessageTrendDelta)>) -> bool {
    let minutes = points.map_values(|p: (Seq<char>, MessageTrendDelta)| p.0);
    &&& text::ascending(minutes)
    &&& forall|m: Seq<char>| #[trigger] minutes.contains(m) <==> trends.contains_key(m)
    &&& forall|i: int| 0 <= i < points.len() ==> (#[trigger] points[i]).1 == trends[points[i].0]
}

pub open spec fn point_views(points: Seq<MessageTrendPoint>) -> Seq<
    (Seq<char>, MessageTrendDelta),
> {
    points.map_values(|p: MessageTrendPoint| p@)
}

/// How many minutes a request for trends covers.
pub open spec fn trend_span(minutes: u32) -> u32 {
    if minutes < 10 {
        10u32
    } else if minutes > 1440 {
        1440u32
    } else {
        minutes
    }
}

/// The first minute that a request for trends covers.
pub open spec fn trend_cutoff(now: UtcTime, minutes: u32) -> Seq<char> {
    clock::minute_text(trend_start(now, minutes))
}

/// A time in the first minute that a request for trends covers.
pub open spec fn trend_start(now: UtcTime, minutes: u32) -> UtcTime {
    clock::time_after(now, -60 * (trend_span(minutes) - 1))
}

/// Merges outstanding counts per minute into `trends`.
fn merge_trends(trends: &mut TextMap<MessageTrendDelta>, deltas: &TextMap<MessageTrendDelta>)
    ensures
        final(trends)@ == table::merged(old(trends)@, deltas@, add_trend()),
{
    let n: usize = deltas.len();
    let ghost a = trends@;
    let ghost b = deltas@;
    let ghost keys = deltas.key_seq();
    let ghost g = add_trend();
    let mut i: usize = 0;
    proof {
        table::lemma_merged_ends(a, b, keys, g);
    }
    while i < n
        invariant
            i <= n,
            n == keys.len(),
            keys == deltas.key_seq(),
            b == deltas@,
            g == add_trend(),
            keys.no_duplicates(),
            trends@ == table::merged_upto(a, b, keys, i as int, g),
        decreases n - i,
    {
        proof {
            table::lemma_merged_step(a, b, keys, i as int, g);
        }
        let delta: MessageTrendDelta = *deltas.value_at(i);
        let have: MessageTrendDelta = match trends.get(deltas.key_at(i).as_str()) {
            Some(t) => *t,
            None => MessageTrendDelta { accepted: 0, delivered: 0 },
        };
        trends.set(
            deltas.key_at(i).clone(),
            MessageTrendDelta {
                accepted: catalog::sum_counts(have.accepted, delta.accepted),
                delivered: catalog::sum_counts(have.delivered, delta.delivered),
            },
        );
        i = i + 1;
    }
    proof {
        table::lemma_merged_ends(a, b, keys, g);
    }
}

impl Database {
    /// Counts messages of a minute.
    fn record_message_trend(&mut self, accepted: i64, delivered: i64, minute: &str)
        ensures
            final(self).trend_deltas@ == trend_noted(
                old(self).trend_deltas@,
                minute@,
                accepted,
                delivered,
            ),
            *final(self) == (Database { trend_deltas: final(self).trend_deltas, ..*old(self) }),
    {
        if accepted == 0 && delivered == 0 {
            return ;
        }
        let have: MessageTrendDelta = match self.trend_deltas.get(minute) {
            Some(t) => *t,
            None => MessageTrendDelta { accepted: 0, delivered: 0 },
        };
        self.trend_deltas.set(
            minute.to_string(),
            MessageTrendDelta {
                accepted: catalog::sum_counts(have.accepted, accepted),
                delivered: catalog::sum_counts(have.delivered, delivered),
            },
        );
    }

    /// Counts messages of a topic and of a minute.
    pub(crate) fn record_topic_stats(&mut self, topic: &str, delta: TopicStatsDelta, minute: &str)
        ensures
            final(self).stats@ == stats_noted(old(self).stats@, topic@, delta),
            final(self).trend_deltas@ == trend_noted(
                old(self).trend_deltas@,
                minute@,
                delta.accepted,
                delta.delivered,
            ),
            *final(self) == (Database {
                stats: final(self).stats,
                trend_deltas: final(self).trend_deltas,
                ..*old(self)
            }),
    {
        let have: TopicStatsDelta = match self.stats.get(topic) {
            Some(t) => *t,
            None => TopicStatsDelta { accepted: 0, duplicates: 0, delivered: 0 },
        };
        self.stats.set(
            topic.to_string(),
            TopicStatsDelta {
                accepted: catalog::sum_counts(have.accepted, delta.accepted),
                duplicates: catalog::sum_counts(have.duplicates, delta.duplicates),
                delivered: catalog::sum_counts(have.delivered, delta.delivered),
            },
        );
        self.record_message_trend(delta.accepted, delta.delivered, minute);
    }

    /// Adds to the counters of a topic, in the catalogue and in the trends.
    pub fn bump_topic_stat(
        &mut self,
        topic: &str,
        accepted: i64,
        duplicates: i64,
        delivered: i64,
        failed: i64,
        now: UtcTime,
    )
        requires
            now.valid(),
        ensures
            topic_stat_bumped(
                *old(self),
                *final(self),
                topic@,
                accepted,
                duplicates,
                delivered,
                failed,
                now,
            ),
    {
        let seen: String = clock::text_of(now);
        let minute: String = clock::minute(now);
        catalog::bump_topic(
            &mut self.topics,
            topic,
            accepted,
            duplicates,
            delivered,
            failed,
            seen.as_str(),
        );
        self.record_message_trend(accepted, delivered, minute.as_str());
    }

    /// Moves the outstanding counts per topic into the catalogue; says how many
    /// topics had any.
    pub fn flush_topic_stats_at(&mut self, now: &str) -> (r: usize)
        ensures
            stats_flushed(*old(self), *final(self), now@),
            r == old(self).stats.key_seq().len(),
    {
        let ghost before = *self;
        let mut pending: TextMap<TopicStatsDelta> = TextMap::new();
        std::mem::swap(&mut self.stats, &mut pending);
        let n: usize = pending.len();
        let ghost a = self.topics@;
        let ghost b = pending@;
        let ghost keys = pending.key_seq();
        let ghost g = add_stats(now@);
        let mut i: usize = 0;
        proof {
            table::lemma_merged_ends(a, b, keys, g);
        }
        while i < n
            invariant
                i <= n,
                n == keys.len(),
                keys == pending.key_seq(),
                b == pending@,
                g == add_stats(now@),
                keys.no_duplicates(),
                self.topics@ == table::merged_upto(a, b, keys, i as int, g),
                self.stats@ == Map::<Seq<char>, TopicStatsDelta>::empty(),
                *self == (Database { topics: self.topics, stats: self.stats, ..before }),
            decreases n - i,
        {
            proof {
                table::lemma_merged_step(a, b, keys, i as int, g);
            }
            let delta: TopicStatsDelta = *pending.value_at(i);
            catalog::bump_topic(
                &mut self.topics,
                pending.key_at(i).as_str(),
                delta.accepted,
                delta.duplicates,
                delta.delivered,
                0,
                now,
            );
            i = i + 1;
        }
        proof {
            table::lemma_merged_ends(a, b, keys, g);
        }
        n
    }

    /// Moves the outstanding counts per topic into the catalogue now.
    pub fn flush_topic_stats(&mut self) -> (r: usize)
        ensures
            exists|now: UtcTime|
                now.valid() && stats_flushed(
                    *old(self),
                    *final(self),
                    #[trigger] clock::time_text(now),
                ),
            r == old(self).stats.key_seq().len(),
    {
        let now: String = clock::text_of(clock::now());
        self.flush_topic_stats_at(now.as_str())
    }

    /// Moves the outstanding counts per minute into the trends and forgets the
    /// minutes before `cutoff`; says how many minutes were outstanding.
    pub fn flush_message_trends_at(&mut self, cutoff: &str) -> (r: usize)
        ensures
            trends_flushed(*old(self), *final(self), cutoff@),
            r == old(self).trend_deltas.key_seq().len(),
    {
        let n: usize = self.trend_deltas.len();
        if n == 0 {
            proof {
                assert(self.trend_deltas@ =~= Map::<Seq<char>, MessageTrendDelta>::empty()) by {
                    assert forall|k: Seq<char>| !self.trend_deltas@.contains_key(k) by {
                        assert(!self.trend_deltas.key_seq().contains(k));
                    }
                }
            }
            return 0;
        }
        proof {
            assert(self.trend_deltas.key_seq().contains(self.trend_deltas.key_seq()[0]));
            assert(self.trend_deltas@.contains_key(self.trend_deltas.key_seq()[0]));
        }
        let mut pending: TextMap<MessageTrendDelta> = TextMap::new();
        std::mem::swap(&mut self.trend_deltas, &mut pending);
        merge_trends(&mut self.trends, &pending);
        self.trends.drop_before(cutoff);
        n
    }

    /// Moves the outstanding counts per minute into the trends and forgets what
    /// is older than seven days.
    pub fn flush_message_trends(&mut self) -> (r: usize)
        ensures
            exists|now: UtcTime|
                now.valid() && clock::minute_faithful(clock::time_after(now, -604800))
                    && trends_flushed(
                    *old(self),
                    *final(self),
                    #[trigger] clock::minute_text(clock::time_after(now, -604800)),
                ),
            r == old(self).trend_deltas.key_seq().len(),
    {
        let now: UtcTime = clock::now();
        let cutoff: String = clock::minute(clock::after(now, -604800));
        self.flush_message_trends_at(cutoff.as_str())
    }

    /// Gives outstanding counts per topic back that could not be written.
    pub fn restore_topic_stats(&mut self, pending: &TextMap<TopicStatsDelta>)
        ensures
            final(self).stats@ == table::merged(old(self).stats@, pending@, add_delta()),
            *final(self) == (Database { stats: final(self).stats, ..*old(self) }),
    {
        let ghost before = *self;
        let n: usize = pending.len();
        let ghost a = self.stats@;
        let ghost b = pending@;
        let ghost keys = pending.key_seq();
        let ghost g = add_delta();
        let mut i: usize = 0;
        proof {
            table::lemma_merged_ends(a, b, keys, g);
        }
        while i < n
            invariant
                i <= n,
                n == keys.len(),
                keys == pending.key_seq(),
                b == pending@,
                g == add_delta(),
                keys.no_duplicates(),
                self.stats@ == table::merged_upto(a, b, keys, i as int, g),
                *self == (Database { stats: self.stats, ..before }),
            decreases n - i,
        {
            proof {
                table::lemma_merged_step(a, b, keys, i as int, g);
            }
            let delta: TopicStatsDelta = *pending.value_at(i);
            let have: TopicStatsDelta = match self.stats.get(pending.key_at(i).as_str()) {
                Some(t) => *t,
                None => TopicStatsDelta { accepted: 0, duplicates: 0, delivered: 0 },
            };
            self.stats.set(
                pending.key_at(i).clone(),
                TopicStatsDelta {
                    accepted: catalog::sum_counts(have.accepted, delta.accepted),
                    duplicates: catalog::sum_counts(have.duplicates, delta.duplicates),
                    delivered: catalog::sum_counts(have.delivered, delta.delivered),
                },
            );
            i = i + 1;
        }
        proof {
            table::lemma_merged_ends(a, b, keys, g);
        }
    }

    /// Gives outstanding counts per minute back that could not be written.
    pub fn restore_message_trends(&mut self, pending: &TextMap<MessageTrendDelta>)
        ensures
            final(self).trend_deltas@ == table::merged(
                old(self).trend_deltas@,
                pending@,
                add_trend(),
            ),
            *final(self) == (Database { trend_deltas: final(self).trend_deltas, ..*old(self) }),
    {
        merge_trends(&mut self.trend_deltas, pending);
    }

    /// The counts from the minute `cutoff` on, by minute.
    pub fn message_trends_at(&self, cutoff: &str) -> (r: Vec<MessageTrendPoint>)
        ensures
            is_timeline(trends_from(*self, cutoff@), point_views(r@)),
    {
        let mut all: TextMap<MessageTrendDelta> = TextMap::new();
        merge_trends(&mut all, &self.trends);
        merge_trends(&mut all, &self.trend_deltas);
        all.drop_before(cutoff);
        proof {
            lemma_copied_trends(self.trends@, self.trend_deltas@);
        }
        let minutes: Vec<String> = all.sorted_keys();
        let mut out: Vec<MessageTrendPoint> = Vec::new();
        let mut i: usize = 0;
        while i < minutes.len()
            invariant
                i <= minutes@.len(),
                out@.len() == i,
                forall|m: Seq<char>| #[trigger]
                    text::texts(minutes@).contains(m) <==> all@.contains_key(m),
                forall|k: int|
                    0 <= k < i ==> (#[trigger] out@[k])@ == (minutes@[k]@, all@[minutes@[k]@]),
            decreases minutes.len() - i,
        {
            proof {
                assert(text::texts(minutes@)[i as int] == minutes@[i as int]@);
                assert(text::texts(minutes@).contains(minutes@[i as int]@));
            }
            match all.get(minutes[i].as_str()) {
                Some(t) => out.push(
                    MessageTrendPoint {
                        minute: minutes[i].clone(),
                        accepted: t.accepted,
                        delivered: t.delivered,
                    },
                ),
                None => {},
            }
            i = i + 1;
        }
        proof {
            let points = point_views(out@);
            assert(points.map_values(|p: (Seq<char>, MessageTrendDelta)| p.0) =~= text::texts(
                minutes@,
            ));
            assert forall|k: int| 0 <= k < points.len() implies (#[trigger] points[k]).1
                == all@[points[k].0] by {
                assert(out@[k]@ == (minutes@[k]@, all@[minutes@[k]@]));
            }
        }
        out
    }

    /// The counts of the last `minutes` minutes, at least ten and at most a day.
    pub fn message_trends(&self, minutes: u32) -> (r: Vec<MessageTrendPoint>)
        ensures
            exists|now: UtcTime|
                now.valid() && clock::minute_faithful(trend_start(now, minutes)) && is_timeline(
                    trends_from(*self, #[trigger] trend_cutoff(now, minutes)),
                    point_views(r@),
                ),
    {
        let span: u32 = if minutes < 10 {
            10
        } else if minutes > 1440 {
            1440
        } else {
            minutes
        };
        let now: UtcTime = clock::now();
        let cutoff: String = clock::minute(clock::after(now, -60 * (span as i64 - 1)));
        proof {
            assert(cutoff@ == trend_cutoff(now, minutes));
        }
        self.message_trends_at(cutoff.as_str())
    }
}

pub open spec fn add_delta() -> spec_fn(Option<TopicStatsDelta>, TopicStatsDelta) -> TopicStatsDelta {
    |old: Option<TopicStatsDelta>, delta: TopicStatsDelta|
        catalog::delta_sum(
            match old {
                Some(t) => t,
                None => no_stats(),
            },
            delta,
        )
}

proof fn lemma_copied_trends(a: Trends, b: Trends)
    ensures
        table::merged(
            table::merged(Map::<Seq<char>, MessageTrendDelta>::empty(), a, add_trend()),
            b,
            add_trend(),
        ) == table::merged(a, b, add_trend()),
{
    let copy = table::merged(Map::<Seq<char>, MessageTrendDelta>::empty(), a, add_trend());
    assert(copy =~= a);
}

/// Counts that could not be written and are given back are outstanding again.
pub proof fn law_restored_counts_are_outstanding(
    stats: Map<Seq<char>, TopicStatsDelta>,
    trends: Trends,
)
    ensures
        table::merged(Map::<Seq<char>, TopicStatsDelta>::empty(), stats, add_delta()) == stats,
        table::merged(Map::<Seq<char>, MessageTrendDelta>::empty(), trends, add_trend()) == trends,
{
    assert(table::merged(Map::<Seq<char>, TopicStatsDelta>::empty(), stats, add_delta())
        =~= stats);
    assert(table::merged(Map::<Seq<char>, MessageTrendDelta>::empty(), trends, add_trend())
        =~= trends);
}

/// The trends of the last minutes show what was counted in a minute, if that
/// minute is none before the first one asked for.
pub proof fn law_trends_reach_back_their_minutes(
    db: Database,
    now: UtcTime,
    minutes: u32,
    then: UtcTime,
)
    requires
        clock::minute_faithful(trend_start(now, minutes)),
        trend_start(now, minutes).writable(),
        then.writable(),
    ensures
        ({
            let all = table::merged(db.trends@, db.trend_deltas@, add_trend());
            let shown = trends_from(db, trend_cutoff(now, minutes));
            let minute = clock::minute_text(then);
            &&& shown.contains_key(minute) == (all.contains_key(minute) && then.minute_number()
                >= trend_start(now, minutes).minute_number())
            &&& shown.contains_key(minute) ==> shown[minute] == all[minute]
        }),
{
    clock::law_minutes_sort_as_times(trend_start(now, minutes), then);
}

/// A flush forgets the minutes that are more than seven days back, and no other.
pub proof fn law_a_flush_keeps_seven_days(
    before: Database,
    after: Database,
    now: UtcTime,
    then: UtcTime,
)
    requires
        trends_flushed(before, after, clock::minute_text(clock::time_after(now, -604800))),
        clock::minute_faithful(clock::time_after(now, -604800)),
        before.trend_deltas@ != Map::<Seq<char>, MessageTrendDelta>::empty(),
        clock::time_after(now, -604800).writable(),
        then.writable(),
    ensures
        ({
            let all = table::merged(before.trends@, before.trend_deltas@, add_trend());
            let minute = clock::minute_text(then);
            &&& after.trends@.contains_key(minute) == (all.contains_key(minute)
                && then.minute_number() >= clock::time_after(now, -604800).minute_number())
            &&& after.trends@.contains_key(minute) ==> after.trends@[minute] == all[minute]
        }),
{
    clock::law_minutes_sort_as_times(clock::time_after(now, -604800), then);
}

/// Flushing does not change what the trends show from the flush's own cutoff on.
pub proof fn law_flush_keeps_the_trends(before: Database, after: Database, cutoff: Seq<char>)
    requires
        trends_flushed(before, after, cutoff),
    ensures
        trends_from(after, cutoff) == trends_from(before, cutoff),
{
    let all = table::merged(before.trends@, before.trend_deltas@, add_trend());
    if before.trend_deltas@ == Map::<Seq<char>, MessageTrendDelta>::empty() {
        assert(all =~= before.trends@);
    }
    assert(table::merged(after.trends@, after.trend_deltas@, add_trend()) =~= after.trends@);
    assert(trends_from(after, cutoff) =~= trends_from(before, cutoff));
}

// -------------------------------------------------------------- queue depths

pub type Depths = Map<Seq<char>, Depth>;

pub open spec fn one_if(yes: bool) -> i64 {
    if yes {
        1i64
    } else {
        0i64
    }
}

/// The depths with one more message counted.
pub open spec fn message_counted(depths: Depths, m: messages::MessageView) -> Depths {
    let d = catalog::depth_in(depths, m.topic);
    depths.insert(
        m.topic,
        Depth {
            pending: catalog::sum(d.pending, one_if(m.status == MessageStatus::Pending)),
            processing: catalog::sum(d.processing, one_if(m.status == MessageStatus::Processing)),
        },
    )
}

pub open spec fn rows_counted(depths: Depths, rows: Rows) -> Depths
    decreases rows.len(),
{
    if rows.len() == 0 {
        depths
    } else {
        message_counted(rows_counted(depths, rows.drop_last()), rows.last())
    }
}

/// Waiting and held messages per topic.
pub open spec fn depths_of(shards: Seq<Rows>) -> Depths
    decreases shards.len(),
{
    if shards.len() == 0 {
        Map::empty()
    } else {
        rows_counted(depths_of(shards.drop_last()), shards.last())
    }
}

/// Waiting and held messages per topic.
pub fn load_queue_depths(shards: &Vec<MessageTable>) -> (r: TextMap<Depth>)
    ensures
        r@ == depths_of(tables(shards@)),
{
    let mut out: TextMap<Depth> = TextMap::new();
    let ghost all = tables(shards@);
    let mut s: usize = 0;
    proof {
        assert(all.take(0) =~= Seq::empty());
    }
    while s < shards.len()
        invariant
            s <= shards@.len(),
            all == tables(shards@),
            out@ == depths_of(all.take(s as int)),
        decreases shards.len() - s,
    {
        let ghost base = out@;
        let n: usize = shards[s].len();
        let ghost rows = shards@[s as int]@;
        let mut i: usize = 0;
        proof {
            assert(rows.take(0) =~= Seq::empty());
        }
        while i < n
            invariant
                i <= n,
                n == rows.len(),
                s < shards@.len(),
                rows == shards@[s as int]@,
                out@ == rows_counted(base, rows.take(i as int)),
            decreases n - i,
        {
            proof {
                assert(rows.take(i + 1).drop_last() =~= rows.take(i as int));
                assert(rows.take(i + 1).last() == rows[i as int]);
            }
            let row: &messages::MessageRow = shards[s].row(i);
            let have: Depth = match out.get(row.topic.as_str()) {
                Some(d) => *d,
                None => Depth { pending: 0, processing: 0 },
            };
            let waits: i64 = if row.status == MessageStatus::Pending {
                1
            } else {
                0
            };
            let held: i64 = if row.status == MessageStatus::Processing {
                1
            } else {
                0
            };
            out.set(
                row.topic.clone(),
                Depth {
                    pending: catalog::sum_counts(have.pending, waits),
                    processing: catalog::sum_counts(have.processing, held),
                },
            );
            i = i + 1;
        }
        proof {
            assert(rows.take(n as int) =~= rows);
            assert(all.take(s + 1).drop_last() =~= all.take(s as int));
            assert(all.take(s + 1).last() == rows);
        }
        s = s + 1;
    }
    proof {
        assert(all.take(all.len() as int) =~= all);
    }
    out
}

/// The number of messages of a topic that wait, over all shards.
pub open spec fn waiting_in(shards: Seq<Rows>, topic: Seq<char>) -> int
    decreases shards.len(),
{
    if shards.len() == 0 {
        0
    } else {
        waiting_in(shards.drop_last(), topic) + messages::count(
            shards.last(),
            messages::waiting_for(topic),
        )
    }
}

/// The number of messages, over all shards.
pub open spec fn stored_in(shards: Seq<Rows>) -> int
    decreases shards.len(),
{
    if shards.len() == 0 {
        0
    } else {
        stored_in(shards.drop_last()) + shards.last().len()
    }
}

proof fn lemma_rows_counted(depths: Depths, rows: Rows, topic: Seq<char>, base: int)
    requires
        catalog::depth_in(depths, topic).pending == base,
        0 <= base,
        base + rows.len() <= i64::MAX,
    ensures
        catalog::depth_in(rows_counted(depths, rows), topic).pending == base + messages::count(
            rows,
            messages::waiting_for(topic),
        ),
        0 <= messages::count(rows, messages::waiting_for(topic)) <= rows.len(),
    decreases rows.len(),
{
    if rows.len() > 0 {
        lemma_rows_counted(depths, rows.drop_last(), topic, base);
    }
}

/// The depth of a topic is the number of its messages that wait.
pub proof fn law_depths_count_waiting_messages(shards: Seq<Rows>, topic: Seq<char>)
    requires
        stored_in(shards) <= i64::MAX,
    ensures
        catalog::depth_in(depths_of(shards), topic).pending == waiting_in(shards, topic),
        0 <= waiting_in(shards, topic) <= stored_in(shards),
    decreases shards.len(),
{
    if shards.len() > 0 {
        law_depths_count_waiting_messages(shards.drop_last(), topic);
        lemma_rows_counted(
            depths_of(shards.drop_last()),
            shards.last(),
            topic,
            waiting_in(shards.drop_last(), topic),
        );
    }
}

// ------------------------------------------------------------ finding messages

/// The first of the first `n` shards that holds a message with the identifier.
pub open spec fn holder(shards: Seq<Rows>, id: Seq<char>, n: int) -> Option<int>
    decreases n,
{
    if n <= 0 {
        None
    } else {
        match holder(shards, id, n - 1) {
            Some(s) => Some(s),
            None => if messages::first_place(shards[n - 1], messages::has_id(id)) is Some {
                Some(n - 1)
            } else {
                None
            },
        }
    }
}

/// The shard in which a message is looked for: the one that its identifier
/// names, else the one that holds it.
pub open spec fn home(shards: Seq<Rows>, id: Seq<char>) -> Option<int> {
    match shard::shard_of_id(id) {
        Some(s) => Some(s),
        None => holder(shards, id, shards.len() as int),
    }
}

/// The first of the first `n` shards that holds a message with the idempotency
/// key.
pub open spec fn key_holder(shards: Seq<Rows>, key: Seq<char>, n: int) -> Option<int>
    decreases n,
{
    if n <= 0 {
        None
    } else {
        match key_holder(shards, key, n - 1) {
            Some(s) => Some(s),
            None => if messages::first_place(shards[n - 1], messages::has_key(key)) is Some {
                Some(n - 1)
            } else {
                None
            },
        }
    }
}

/// Where the message with an idempotency key is, whatever its topic: its shard
/// and its place.
pub open spec fn key_place(shards: Seq<Rows>, key: Seq<char>) -> Option<(int, int)> {
    match key_holder(shards, key, shards.len() as int) {
        Some(s) => Some((s, messages::first_place(shards[s], messages::has_key(key))->0)),
        None => None,
    }
}

proof fn lemma_key_holder(shards: Seq<Rows>, key: Seq<char>, n: int)
    requires
        n <= shards.len(),
    ensures
        match key_holder(shards, key, n) {
            Some(s) => 0 <= s < n && messages::first_place(
                shards[s],
                messages::has_key(key),
            ) is Some,
            None => forall|s: int|
                0 <= s < n ==> messages::first_place(
                    #[trigger] shards[s],
                    messages::has_key(key),
                ) is None,
        },
    decreases n,
{
    if n > 0 {
        lemma_key_holder(shards, key, n - 1);
    }
}

/// The place of a key holds a message with that key; where there is no place, no
/// message has the key.
pub proof fn lemma_key_place(shards: Seq<Rows>, key: Seq<char>)
    ensures
        match key_place(shards, key) {
            Some((s, i)) => 0 <= s < shards.len() && 0 <= i < shards[s].len()
                && shards[s][i].idempotency_key == Some(key),
            None => forall|s: int, i: int|
                0 <= s < shards.len() && 0 <= i < shards[s].len() ==> (
                #[trigger] shards[s][i]).idempotency_key != Some(key),
        },
{
    lemma_key_holder(shards, key, shards.len() as int);
    match key_holder(shards, key, shards.len() as int) {
        Some(s) => messages::lemma_first_place(shards[s], messages::has_key(key)),
        None => {
            assert forall|s: int, i: int|
                0 <= s < shards.len() && 0 <= i < shards[s].len() implies (
            #[trigger] shards[s][i]).idempotency_key != Some(key) by {
                messages::lemma_first_place(shards[s], messages::has_key(key));
                assert(!messages::has_key(key)(shards[s][i]));
            }
        },
    }
}

impl Database {
    /// Where the message with an idempotency key is, whatever its topic.
    pub fn find_key(&self, key: &str) -> (r: Option<(usize, usize)>)
        requires
            self.wf(),
        ensures
            match r {
                Some((s, i)) => {
                    &&& key_place(self.rows(), key@) == Some((s as int, i as int))
                    &&& s < MESSAGE_SHARDS
                    &&& i < self.rows()[s as int].len()
                },
                None => key_place(self.rows(), key@) is None,
            },
    {
        let ghost all = self.rows();
        let mut found: Option<(usize, usize)> = None;
        let mut s: usize = 0;
        while s < MESSAGE_SHARDS
            invariant
                s <= MESSAGE_SHARDS,
                self.wf(),
                all == self.rows(),
                match found {
                    Some((k, i)) => {
                        &&& key_holder(all, key@, s as int) == Some(k as int)
                        &&& k < s
                        &&& messages::first_place(all[k as int], messages::has_key(key@)) == Some(
                            i as int,
                        )
                        &&& i < all[k as int].len()
                    },
                    None => key_holder(all, key@, s as int) is None,
                },
            decreases MESSAGE_SHARDS - s,
        {
            proof {
                assert(all[s as int] == self.shards@[s as int]@);
            }
            if found.is_none() {
                match self.shards[s].find_key(key) {
                    Some(i) => found = Some((s, i)),
                    None => {},
                }
            }
            s = s + 1;
        }
        found
    }

    /// The shard in which a message is looked for.
    pub fn shard_index_for_id(&self, id: &str) -> (r: Option<usize>)
        requires
            self.wf(),
        ensures
            match r {
                Some(s) => home(self.rows(), id@) == Some(s as int) && s < MESSAGE_SHARDS,
                None => home(self.rows(), id@) is None,
            },
    {
        match shard::message_id_shard(id) {
            Some(s) => return Some(s),
            None => {},
        }
        let ghost all = self.rows();
        let mut found: Option<usize> = None;
        let mut s: usize = 0;
        while s < MESSAGE_SHARDS
            invariant
                s <= MESSAGE_SHARDS,
                self.wf(),
                all == self.rows(),
                match found {
                    Some(k) => holder(all, id@, s as int) == Some(k as int) && k < s,
                    None => holder(all, id@, s as int) is None,
                },
            decreases MESSAGE_SHARDS - s,
        {
            proof {
                assert(all[s as int] == self.shards@[s as int]@);
            }
            if found.is_none() && self.shards[s].find_id(id).is_some() {
                found = Some(s);
            }
            s = s + 1;
        }
        found
    }

    /// Counts the waiting and held messages afresh.
    pub fn refresh_queue_depths(&mut self)
        ensures
            final(self).depths@ == depths_of(old(self).rows()),
            *final(self) == (Database { depths: final(self).depths, ..*old(self) }),
    {
        self.depths = load_queue_depths(&self.shards);
    }

    /// Changes the depth of a topic.
    pub fn bump_queue_depth(&mut self, topic: &str, pending: i64, processing: i64)
        ensures
            final(self).depths@ == catalog::depth_bumped(
                old(self).depths@,
                topic@,
                pending,
                processing,
            ),
            *final(self) == (Database { depths: final(self).depths, ..*old(self) }),
    {
        catalog::bump_depth(&mut self.depths, topic, pending, processing);
    }
}

// ----------------------------------------------------------- settling messages

/// What settling messages changes: the messages and the counts.
#[verifier::ext_equal]
pub struct Tally {
    pub shards: Seq<Rows>,
    pub depths: Depths,
    pub stats: Map<Seq<char>, TopicStatsDelta>,
    pub trends: Trends,
}

pub open spec fn tally(db: Database) -> Tally {
    Tally {
        shards: db.rows(),
        depths: db.depths@,
        stats: db.stats@,
        trends: db.trend_deltas@,
    }
}

/// Only what a tally shows may have changed.
pub open spec fn tally_only(before: Database, after: Database) -> bool {
    &&& after == (Database {
        shards: after.shards,
        depths: after.depths,
        stats: after.stats,
        trend_deltas: after.trend_deltas,
        ..before
    })
    &&& before.wf() ==> after.wf()
}

/// Where a held message is: its shard and its place.
pub open spec fn held_at(shards: Seq<Rows>, id: Seq<char>, lease: Seq<char>) -> Option<(int, int)> {
    match home(shards, id) {
        None => None,
        Some(s) => match messages::held_place(shards[s], id, lease) {
            None => None,
            Some(i) => Some((s, i)),
        },
    }
}

/// The shards with one row replaced.
pub open spec fn with_row(
    shards: Seq<Rows>,
    at: (int, int),
    row: messages::MessageView,
) -> Seq<Rows> {
    shards.update(at.0, shards[at.0].update(at.1, row))
}

/// A delivery: whether the message was held, and what changes.
pub open spec fn delivered_step(
    t: Tally,
    id: Seq<char>,
    lease: Seq<char>,
    now: Seq<char>,
    minute: Seq<char>,
) -> (bool, Tally) {
    match held_at(t.shards, id, lease) {
        None => (false, t),
        Some(at) => {
            let row = t.shards[at.0][at.1];
            (
                true,
                Tally {
                    shards: with_row(t.shards, at, messages::as_delivered(row, now)),
                    depths: catalog::depth_bumped(t.depths, row.topic, 0, -1 as i64),
                    stats: stats_noted(
                        t.stats,
                        row.topic,
                        TopicStatsDelta { accepted: 0, duplicates: 0, delivered: 1 },
                    ),
                    trends: trend_noted(t.trends, minute, 0, 1),
                },
            )
        },
    }
}

/// Deliveries one after the other.
pub open spec fn delivered_steps(
    t: Tally,
    list: Seq<(Seq<char>, Seq<char>)>,
    now: Seq<char>,
    minute: Seq<char>,
) -> (Seq<bool>, Tally)
    decreases list.len(),
{
    if list.len() == 0 {
        (Seq::empty(), t)
    } else {
        let (done, mid) = delivered_steps(t, list.drop_last(), now, minute);
        let (ok, after) = delivered_step(mid, list.last().0, list.last().1, now, minute);
        (done.push(ok), after)
    }
}

pub open spec fn pair_views(list: Seq<(String, String)>) -> Seq<(Seq<char>, Seq<char>)> {
    list.map_values(|p: (String, String)| (p.0@, p.1@))
}

pub open spec fn batch_delivered(
    before: Database,
    after: Database,
    list: Seq<(Seq<char>, Seq<char>)>,
    results: Seq<bool>,
    now: UtcTime,
) -> bool {
    &&& (results, tally(after)) == delivered_steps(
        tally(before),
        list,
        clock::time_text(now),
        clock::minute_text(now),
    )
    &&& tally_only(before, after)
}

impl Database {
    /// Marks a held message delivered; says whether it was held.
    fn deliver(&mut self, id: &str, lease: &str, now: &str, minute: &str) -> (r: bool)
        requires
            old(self).wf(),
        ensures
            (r, tally(*final(self))) == delivered_step(
                tally(*old(self)),
                id@,
                lease@,
                now@,
                minute@,
            ),
            tally_only(*old(self), *final(self)),
    {
        let ghost before = *self;
        let s: usize = match self.shard_index_for_id(id) {
            Some(s) => s,
            None => return false,
        };
        proof {
            assert(before.rows()[s as int] == before.shards@[s as int]@);
        }
        match self.shards[s].delivered(id, lease, now) {
            None => {
                proof {
                    assert(self.rows() =~= before.rows());
                }
                false
            },
            Some(topic) => {
                proof {
                    let i = messages::held_place(before.rows()[s as int], id@, lease@)->0;
                    assert(self.rows() =~= with_row(
                        before.rows(),
                        (s as int, i),
                        messages::as_delivered(before.rows()[s as int][i], now@),
                    ));
                }
                self.record_topic_stats(
                    topic.as_str(),
                    TopicStatsDelta { accepted: 0, duplicates: 0, delivered: 1 },
                    minute,
                );
                self.bump_queue_depth(topic.as_str(), 0, -1);
                true
            },
        }
    }

    /// Marks held messages delivered; says of each whether it was held.
    pub fn delivered_batch_at(&mut self, list: &Vec<(String, String)>, now: UtcTime) -> (r: Vec<
        bool,
    >)
        requires
            old(self).wf(),
            now.valid(),
        ensures
            batch_delivered(*old(self), *final(self), pair_views(list@), r@, now),
    {
        let ghost before = *self;
        let ghost views = pair_views(list@);
        let at: String = clock::text_of(now);
        let minute: String = clock::minute(now);
        let mut out: Vec<bool> = Vec::new();
        let mut i: usize = 0;
        proof {
            assert(views.take(0) =~= Seq::empty());
            assert(out@ =~= Seq::<bool>::empty());
        }
        while i < list.len()
            invariant
                i <= list@.len(),
                before.wf(),
                self.wf(),
                views == pair_views(list@),
                (out@, tally(*self)) == delivered_steps(
                    tally(before),
                    views.take(i as int),
                    at@,
                    minute@,
                ),
                tally_only(before, *self),
            decreases list.len() - i,
        {
            proof {
                assert(views.take(i + 1).drop_last() =~= views.take(i as int));
                assert(views.take(i + 1).last() == views[i as int]);
            }
            let ok: bool = self.deliver(
                list[i].0.as_str(),
                list[i].1.as_str(),
                at.as_str(),
                minute.as_str(),
            );
            out.push(ok);
            i = i + 1;
        }
        proof {
            assert(views.take(views.len() as int) =~= views);
        }
        out
    }

    /// Marks held messages delivered now.
    pub fn delivered_batch(&mut self, list: Vec<(String, String)>) -> (r: Vec<bool>)
        requires
            old(self).wf(),
        ensures
            exists|now: UtcTime|
                now.valid() && #[trigger] batch_delivered(
                    *old(self),
                    *final(self),
                    pair_views(list@),
                    r@,
                    now,
                ),
    {
        let now: UtcTime = clock::now();
        self.delivered_batch_at(&list, now)
    }

    /// Marks a held message delivered at the time `now`; says whether it was held.
    pub fn delivered_at(&mut self, id: &str, lease: &str, now: UtcTime) -> (r: bool)
        requires
            old(self).wf(),
            now.valid(),
        ensures
            delivered_once(*old(self), *final(self), id@, lease@, r, now),
    {
        let at: String = clock::text_of(now);
        let minute: String = clock::minute(now);
        self.deliver(id, lease, at.as_str(), minute.as_str())
    }

    /// Marks a held message delivered now; says whether it was held.
    pub fn delivered(&mut self, id: &str, lease: &str) -> (r: bool)
        requires
            old(self).wf(),
        ensures
            exists|now: UtcTime|
                now.valid() && #[trigger] delivered_once(
                    *old(self),
                    *final(self),
                    id@,
                    lease@,
                    r,
                    now,
                ),
    {
        self.delivered_at(id, lease, clock::now())
    }
}

pub open spec fn delivered_once(
    before: Database,
    after: Database,
    id: Seq<char>,
    lease: Seq<char>,
    ok: bool,
    now: UtcTime,
) -> bool {
    &&& (ok, tally(after)) == delivered_step(
        tally(before),
        id,
        lease,
        clock::time_text(now),
        clock::minute_text(now),
    )
    &&& tally_only(before, after)
}

// ------------------------------------------------------------- settings: laws

proof fn lemma_last_configuration(
    cache: Map<Seq<char>, model::TopicConfigView>,
    topics: catalog::Topics,
    configs: Seq<model::TopicConfigView>,
    now: Seq<char>,
    i: int,
)
    requires
        0 <= i < configs.len(),
        forall|j: int| i < j < configs.len() ==> (#[trigger] configs[j]).topic != configs[i].topic,
    ensures
        all_cached(cache, configs).contains_key(configs[i].topic),
        all_cached(cache, configs)[configs[i].topic] == configs[i],
        all_configured(topics, configs, now).contains_key(configs[i].topic),
        all_configured(topics, configs, now)[configs[i].topic].configured,
    decreases configs.len(),
{
    let init = configs.drop_last();
    if i < init.len() {
        assert(configs.last() == configs[configs.len() - 1]);
        assert forall|j: int| i < j < init.len() implies (#[trigger] init[j]).topic
            != init[i].topic by {
            assert(init[j] == configs[j]);
        }
        lemma_last_configuration(cache, topics, init, now, i);
        assert(init[i] == configs[i]);
    }
}

/// What was configured is what is looked up afterwards: of each topic the last
/// of the given settings.
pub proof fn law_configured_settings_are_looked_up(
    before: Database,
    after: Database,
    configs: Seq<model::TopicConfigView>,
    list: Seq<model::TopicConfigView>,
    now: Seq<char>,
    i: int,
)
    requires
        topics_configured(before, after, configs, list, now),
        0 <= i < configs.len(),
        forall|j: int| i < j < configs.len() ==> (#[trigger] configs[j]).topic != configs[i].topic,
    ensures
        config_of(after, configs[i].topic) == configs[i],
        after.topics@[configs[i].topic].configured,
{
    lemma_last_configuration(before.configs@, before.topics@, configs, now, i);
}

/// A subscription never changes the settings of a configured topic.
pub proof fn law_an_explicit_configuration_wins(
    before: Database,
    after: Database,
    topic: Seq<char>,
    now: Seq<char>,
)
    requires
        subscription_noted(before, after, topic, now),
        before.topics@.contains_key(topic),
        before.topics@[topic].configured,
    ensures
        catalog::config_in(after.topics@, topic) == catalog::config_in(before.topics@, topic),
{
}

/// A subscription to an exact topic that nobody configured leaves it ephemeral; a
/// subscription to a wildcard filter makes a durable row.
pub proof fn law_only_wildcard_subscriptions_are_durable(
    before: Database,
    after: Database,
    topic: Seq<char>,
    now: Seq<char>,
)
    requires
        subscription_noted(before, after, topic, now),
        !catalog::row_in(before.topics@, topic).configured,
    ensures
        config_of(after, topic).persistence == (if topic::wild(topic) {
            PersistenceMode::Persistent
        } else {
            PersistenceMode::Ephemeral
        }),
{
    model::law_stored_names_read_back(model::DeliveryMode::Broadcast, PersistenceMode::Persistent);
    model::law_stored_names_read_back(model::DeliveryMode::Broadcast, PersistenceMode::Ephemeral);
}

/// Looking settings up keeps the looked-up settings true.
pub proof fn law_lookups_keep_settings_coherent(before: Database, after: Database, topic: Seq<char>)
    requires
        coherent(before),
        after.configs@ == before.configs@.insert(topic, config_of(before, topic)),
        after.topics@ == before.topics@,
    ensures
        coherent(after),
{
    assert forall|t: Seq<char>| #[trigger] after.configs@.contains_key(t) implies after.configs@[t]
        == catalog::config_in(after.topics@, t) by {
        if t != topic {
            assert(before.configs@.contains_key(t));
        }
    }
}

/// Subscriptions keep the looked-up settings true.
pub proof fn law_subscriptions_keep_settings_coherent(
    before: Database,
    after: Database,
    topic: Seq<char>,
    now: Seq<char>,
)
    requires
        coherent(before),
        subscription_noted(before, after, topic, now),
    ensures
        coherent(after),
{
    assert forall|t: Seq<char>| #[trigger] after.configs@.contains_key(t) implies after.configs@[t]
        == catalog::config_in(after.topics@, t) by {
        assert(before.configs@.contains_key(t));
    }
}

/// Configurations keep the looked-up settings true.
pub proof fn law_configurations_keep_settings_coherent(
    before: Database,
    after: Database,
    configs: Seq<model::TopicConfigView>,
    list: Seq<model::TopicConfigView>,
    now: Seq<char>,
)
    requires
        coherent(before),
        topics_configured(before, after, configs, list, now),
    ensures
        coherent(after),
{
    lemma_configured(before, configs, now);
}

proof fn lemma_configured(before: Database, configs: Seq<model::TopicConfigView>, now: Seq<char>)
    requires
        coherent(before),
    ensures
        ({
            let cache = all_cached(before.configs@, configs);
            let topics = all_configured(before.topics@, configs, now);
            forall|t: Seq<char>| #[trigger]
                cache.contains_key(t) ==> cache[t] == catalog::config_in(topics, t)
        }),
    decreases configs.len(),
{
    if configs.len() > 0 {
        let init = configs.drop_last();
        let last = configs.last();
        lemma_configured(before, init, now);
        model::law_stored_names_read_back(last.delivery, last.persistence);
        let cache = all_cached(before.configs@, configs);
        let topics = all_configured(before.topics@, configs, now);
        assert forall|t: Seq<char>| #[trigger] cache.contains_key(t) implies cache[t]
            == catalog::config_in(topics, t) by {
            if t != last.topic {
                assert(all_cached(before.configs@, init).contains_key(t));
            }
        }
    }
}

/// Moving outstanding counts into the catalogue keeps the looked-up settings
/// true.
pub proof fn law_flushing_keeps_settings_coherent(before: Database, after: Database, now: Seq<char>)
    requires
        coherent(before),
        stats_flushed(before, after, now),
    ensures
        coherent(after),
{
    model::law_stored_names_read_back(model::DeliveryMode::Broadcast, PersistenceMode::Ephemeral);
    assert forall|t: Seq<char>| #[trigger] after.configs@.contains_key(t) implies after.configs@[t]
        == catalog::config_in(after.topics@, t) by {
        assert(before.configs@.contains_key(t));
        assert(catalog::config_in(after.topics@, t) == catalog::config_in(before.topics@, t));
    }
}

/// A flush adds what is outstanding for a topic to its numbers and notes when
/// that was. A topic with nothing outstanding stays as it is.
pub proof fn law_a_flush_adds_what_is_outstanding(
    before: Database,
    after: Database,
    now: Seq<char>,
    topic: Seq<char>,
)
    requires
        stats_flushed(before, after, now),
    ensures
        after.topics@.contains_key(topic) == (before.topics@.contains_key(topic)
            || before.stats@.contains_key(topic)),
        before.stats@.contains_key(topic) ==> {
            let old = catalog::row_in(before.topics@, topic);
            let new = after.topics@[topic];
            let more = before.stats@[topic];
            &&& new.accepted == catalog::sum(old.accepted, more.accepted)
            &&& new.duplicates == catalog::sum(old.duplicates, more.duplicates)
            &&& new.delivered == catalog::sum(old.delivered, more.delivered)
            &&& new.failed == old.failed
            &&& new.dropped == old.dropped
            &&& new.last_seen_at == Some(now)
            &&& new.delivery == old.delivery
            &&& new.persistence == old.persistence
            &&& new.configured == old.configured
        },
        !before.stats@.contains_key(topic) && before.topics@.contains_key(topic)
            ==> after.topics@[topic] == before.topics@[topic],
        !after.stats@.contains_key(topic),
        after.rows() == before.rows(),
{
}

/// What the trends show of a minute is what is stored for it and what is
/// outstanding, added up.
pub proof fn law_a_minute_shows_all_that_was_counted(db: Database, cutoff: Seq<char>, minute: Seq<char>)
    ensures
        ({
            let shown = trends_from(db, cutoff);
            let stored = trend_in(db.trends@, minute);
            let more = trend_in(db.trend_deltas@, minute);
            &&& shown.contains_key(minute) <==> (db.trends@.contains_key(minute)
                || db.trend_deltas@.contains_key(minute)) && !text::text_less(minute, cutoff)
            &&& shown.contains_key(minute) ==> shown[minute].accepted == catalog::sum(
                stored.accepted,
                more.accepted,
            ) && shown[minute].delivered == catalog::sum(stored.delivered, more.delivered)
        }),
{
}

/// Trends reach back ten minutes at least and a day at most, counting the minute
/// that runs.
pub proof fn law_trends_reach_back_ten_minutes_to_a_day(now: UtcTime, minutes: u32)
    requires
        now.valid(),
        now.secs >= clock::FIRST_SECOND + 86400,
    ensures
        minutes <= 10 ==> trend_start(now, minutes).secs == now.secs - 540,
        10 <= minutes <= 1440 ==> trend_start(now, minutes).secs == now.secs - 60 * (minutes - 1),
        minutes >= 1440 ==> trend_start(now, minutes).secs == now.secs - 86340,
        trend_start(now, minutes).nanos == now.nanos,
{
    clock::law_seconds_later_are_seconds_later(now, -60 * (trend_span(minutes) - 1));
}

/// Counting a minute adds to that minute alone, and counting nothing leaves no
/// trace.
pub proof fn law_a_minute_is_counted(
    trends: Trends,
    minute: Seq<char>,
    accepted: i64,
    delivered: i64,
    other: Seq<char>,
)
    requires
        other != minute,
    ensures
        ({
            let after = trend_noted(trends, minute, accepted, delivered);
            &&& trend_in(after, minute).accepted == catalog::sum(
                trend_in(trends, minute).accepted,
                accepted,
            )
            &&& trend_in(after, minute).delivered == catalog::sum(
                trend_in(trends, minute).delivered,
                delivered,
            )
            &&& trend_in(after, other) == trend_in(trends, other)
            &&& accepted == 0 && delivered == 0 ==> after == trends
        }),
{
}

/// Deliveries are marked one after the other: marking two lists together is
/// marking the second after the first.
pub proof fn law_deliveries_are_marked_in_order(
    t: Tally,
    a: Seq<(Seq<char>, Seq<char>)>,
    b: Seq<(Seq<char>, Seq<char>)>,
    now: Seq<char>,
    minute: Seq<char>,
)
    ensures
        ({
            let (first, mid) = delivered_steps(t, a, now, minute);
            let (second, end) = delivered_steps(mid, b, now, minute);
            &&& delivered_steps(t, a + b, now, minute) == (first + second, end)
            &&& first.len() == a.len()
            &&& a.len() == 1 ==> first == seq![delivered_step(t, a[0].0, a[0].1, now, minute).0]
                && mid == delivered_step(t, a[0].0, a[0].1, now, minute).1
        }),
    decreases b.len(), a.len(),
{
    let (first, mid) = delivered_steps(t, a, now, minute);
    let (second, end) = delivered_steps(mid, b, now, minute);
    if b.len() > 0 {
        law_deliveries_are_marked_in_order(t, a, b.drop_last(), now, minute);
        assert((a + b).drop_last() =~= a + b.drop_last());
        assert((a + b).last() == b.last());
        assert(delivered_steps(t, a + b, now, minute).0 =~= first + second);
    } else {
        assert(a + b =~= a);
        assert(first + second =~= first);
        if a.len() > 0 {
            law_deliveries_are_marked_in_order(t, a.drop_last(), b, now, minute);
        }
    }
    if a.len() == 1 {
        reveal_with_fuel(delivered_steps, 2);
        assert(a.drop_last().len() == 0);
        assert(first =~= seq![delivered_step(t, a[0].0, a[0].1, now, minute).0]);
    }
}

/// The catalogue lists every topic once, by name, with its settings read from
/// the words they are stored in.
pub proof fn law_the_catalogue_lists_every_topic(
    topics: catalog::Topics,
    list: Seq<model::TopicConfigView>,
    topic: Seq<char>,
)
    requires
        is_catalogue(topics, list),
        topics.contains_key(topic),
    ensures
        exists|i: int|
            0 <= i < list.len() && (#[trigger] list[i]).topic == topic && (
            topics[topic].persistence == "persistent"@ ==> list[i].persistence
                == PersistenceMode::Persistent) && (topics[topic].persistence == "ephemeral"@
                ==> list[i].persistence == PersistenceMode::Ephemeral) && (topics[topic].delivery
                == "single"@ ==> list[i].delivery == model::DeliveryMode::Single) && (
            topics[topic].delivery == "broadcast"@ ==> list[i].delivery
                == model::DeliveryMode::Broadcast),
        forall|i: int, j: int|
            0 <= i < j < list.len() ==> text::text_less(
                (#[trigger] list[i]).topic,
                (#[trigger] list[j]).topic,
            ),
        forall|i: int| 0 <= i < list.len() ==> topics.contains_key((#[trigger] list[i]).topic),
{
    let names = list.map_values(|c: model::TopicConfigView| c.topic);
    assert(names.contains(topic));
    let i = names.index_of(topic);
    assert(list[i].topic == topic);
    model::law_stored_names_read_back(model::DeliveryMode::Single, PersistenceMode::Persistent);
    model::law_stored_names_read_back(model::DeliveryMode::Broadcast, PersistenceMode::Ephemeral);
    assert forall|i: int, j: int| 0 <= i < j < list.len() implies text::text_less(
        (#[trigger] list[i]).topic,
        (#[trigger] list[j]).topic,
    ) by {
        assert(text::text_less(names[i], names[j]));
    }
    assert forall|i: int| 0 <= i < list.len() implies topics.contains_key(
        (#[trigger] list[i]).topic,
    ) by {
        assert(names[i] == list[i].topic);
        assert(names.contains(names[i]));
    }
}

/// A timeline has one point for every minute, in order, with what was counted in
/// it.
pub proof fn law_a_timeline_has_every_minute(
    trends: Trends,
    points: Seq<(Seq<char>, MessageTrendDelta)>,
    minute: Seq<char>,
)
    requires
        is_timeline(trends, points),
    ensures
        trends.contains_key(minute) <==> points.contains((minute, trends[minute])),
        forall|i: int, j: int|
            0 <= i < j < points.len() ==> text::text_less(
                (#[trigger] points[i]).0,
                (#[trigger] points[j]).0,
            ),
{
    let minutes = points.map_values(|p: (Seq<char>, MessageTrendDelta)| p.0);
    if trends.contains_key(minute) {
        assert(minutes.contains(minute));
        let i = minutes.index_of(minute);
        assert(points[i] == (minute, trends[minute]));
    }
    if points.contains((minute, trends[minute])) {
        let i = points.index_of((minute, trends[minute]));
        assert(minutes[i] == minute);
        assert(minutes.contains(minute));
    }
    assert forall|i: int, j: int| 0 <= i < j < points.len() implies text::text_less(
        (#[trigger] points[i]).0,
        (#[trigger] points[j]).0,
    ) by {
        assert(text::text_less(minutes[i], minutes[j]));
    }
}

/// Counting for a topic changes the catalogue and the minute that runs, and
/// nothing else.
pub proof fn law_counting_touches_the_topic_and_the_minute(
    before: Database,
    after: Database,
    topic: Seq<char>,
    accepted: i64,
    duplicates: i64,
    delivered: i64,
    failed: i64,
    now: UtcTime,
)
    requires
        topic_stat_bumped(before, after, topic, accepted, duplicates, delivered, failed, now),
    ensures
        ({
            let old = catalog::row_in(before.topics@, topic);
            let new = after.topics@[topic];
            &&& new.accepted == catalog::sum(old.accepted, accepted)
            &&& new.duplicates == catalog::sum(old.duplicates, duplicates)
            &&& new.delivered == catalog::sum(old.delivered, delivered)
            &&& new.failed == catalog::sum(old.failed, failed)
            &&& new.last_seen_at == Some(clock::time_text(now))
        }),
        trend_in(after.trend_deltas@, clock::minute_text(now)).accepted == catalog::sum(
            trend_in(before.trend_deltas@, clock::minute_text(now)).accepted,
            accepted,
        ),
        trend_in(after.trend_deltas@, clock::minute_text(now)).delivered == catalog::sum(
            trend_in(before.trend_deltas@, clock::minute_text(now)).delivered,
            delivered,
        ),
        after.rows() == before.rows(),
        after.depths@ == before.depths@,
        after.stats@ == before.stats@,
{
}

/// Looking settings up changes nothing but what is remembered, and what is
/// remembered is what was found.
pub proof fn law_a_lookup_remembers_what_it_found(before: Database, after: Database, topic: Seq<char>)
    requires
        config_looked_up(before, after, topic),
    ensures
        config_of(after, topic) == config_of(before, topic),
        after.configs@.contains_key(topic),
        forall|other: Seq<char>| #[trigger] config_of(after, other) == config_of(before, other),
        after.rows() == before.rows(),
        after.topics@ == before.topics@,
{
}

} // verus!
