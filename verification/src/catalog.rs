//! The topic catalogue: counters and settings per topic, queue depths, and
//! message counts per minute.
use vstd::prelude::*;
use vstd::string::*;

use crate::model::{DeliveryMode, PersistenceMode, TopicConfig};
use crate::table;
use crate::table::TextMap;
use crate::text;
use crate::topic;

verus! {

/// The sum of two counters. Counters stay at the end of their range.
pub open spec fn sum(a: i64, b: i64) -> i64 {
    if a + b > i64::MAX {
        i64::MAX
    } else if a + b < i64::MIN {
        i64::MIN
    } else {
        (a + b) as i64
    }
}

/// The sum of two counters.
pub fn sum_counts(a: i64, b: i64) -> (r: i64)
    ensures
        r == sum(a, b),
{
    match a.checked_add(b) {
        Some(c) => c,
        None => if b > 0 {
            i64::MAX
        } else {
            i64::MIN
        },
    }
}

/// What is stored of a topic.
#[derive(Debug)]
pub struct TopicRow {
    pub accepted: i64,
    pub duplicates: i64,
    pub delivered: i64,
    pub failed: i64,
    pub dropped: i64,
    pub pending: i64,
    pub processing: i64,
    pub delivery: String,
    pub persistence: String,
    pub last_seen_at: Option<String>,
    pub configured: bool,
}

#[verifier::ext_equal]
pub struct TopicRowView {
    pub accepted: i64,
    pub duplicates: i64,
    pub delivered: i64,
    pub failed: i64,
    pub dropped: i64,
    pub pending: i64,
    pub processing: i64,
    pub delivery: Seq<char>,
    pub persistence: Seq<char>,
    pub last_seen_at: Option<Seq<char>>,
    pub configured: bool,
}

impl View for TopicRow {
    type V = TopicRowView;

    open spec fn view(&self) -> TopicRowView {
        TopicRowView {
            accepted: self.accepted,
            duplicates: self.duplicates,
            delivered: self.delivered,
            failed: self.failed,
            dropped: self.dropped,
            pending: self.pending,
            processing: self.processing,
            delivery: self.delivery@,
            persistence: self.persistence@,
            last_seen_at: text::opt_text(self.last_seen_at),
            configured: self.configured,
        }
    }
}

impl Clone for TopicRow {
    fn clone(&self) -> (r: Self)
        ensures
            r@ == self@,
    {
        TopicRow {
            accepted: self.accepted,
            duplicates: self.duplicates,
            delivered: self.delivered,
            failed: self.failed,
            dropped: self.dropped,
            pending: self.pending,
            processing: self.processing,
            delivery: self.delivery.clone(),
            persistence: self.persistence.clone(),
            last_seen_at: match &self.last_seen_at {
                Some(at) => Some(at.clone()),
                None => None,
            },
            configured: self.configured,
        }
    }
}

/// A topic that was never configured and of which nothing was counted.
pub open spec fn fresh_topic() -> TopicRowView {
    TopicRowView {
        accepted: 0,
        duplicates: 0,
        delivered: 0,
        failed: 0,
        dropped: 0,
        pending: 0,
        processing: 0,
        delivery: "broadcast"@,
        persistence: "ephemeral"@,
        last_seen_at: None,
        configured: false,
    }
}

impl TopicRow {
    pub fn fresh() -> (r: TopicRow)
        ensures
            r@ == fresh_topic(),
    {
        TopicRow {
            accepted: 0,
            duplicates: 0,
            delivered: 0,
            failed: 0,
            dropped: 0,
            pending: 0,
            processing: 0,
            delivery: "broadcast".to_string(),
            persistence: "ephemeral".to_string(),
            last_seen_at: None,
            configured: false,
        }
    }

    /// The settings in this row.
    pub fn config(&self, topic: &str) -> (r: TopicConfig)
        ensures
            r@ == row_config(topic@, self@),
    {
        TopicConfig {
            topic: topic.to_string(),
            delivery: DeliveryMode::from_stored(self.delivery.as_str()),
            persistence: PersistenceMode::from_stored(self.persistence.as_str()),
        }
    }
}

pub type Topics = Map<Seq<char>, TopicRowView>;

/// The settings in a row.
pub open spec fn row_config(topic: Seq<char>, row: TopicRowView) -> crate::model::TopicConfigView {
    crate::model::TopicConfigView {
        topic,
        delivery: DeliveryMode::stored(row.delivery),
        persistence: PersistenceMode::stored(row.persistence),
    }
}

/// The settings of a topic, those of an unknown topic being implicit.
pub open spec fn config_in(topics: Topics, topic: Seq<char>) -> crate::model::TopicConfigView {
    if topics.contains_key(topic) {
        row_config(topic, topics[topic])
    } else {
        crate::model::implicit_config(topic)
    }
}

/// The row of a topic, a fresh one if it has none.
pub open spec fn row_in(topics: Topics, topic: Seq<char>) -> TopicRowView {
    if topics.contains_key(topic) {
        topics[topic]
    } else {
        fresh_topic()
    }
}

/// Takes the row of a topic out, or makes a fresh one.
fn take_row(topics: &mut TextMap<TopicRow>, topic: &str) -> (r: TopicRow)
    ensures
        final(topics)@ == old(topics)@.remove(topic@),
        r@ == row_in(old(topics)@, topic@),
{
    match topics.take(topic) {
        Some(row) => row,
        None => TopicRow::fresh(),
    }
}

/// Puts a row back that [`take_row`] took out.
fn put_row(topics: &mut TextMap<TopicRow>, topic: &str, row: TopicRow, before: Ghost<Topics>)
    requires
        old(topics)@ == before@.remove(topic@),
    ensures
        final(topics)@ == before@.insert(topic@, row@),
{
    topics.set(topic.to_string(), row);
    proof {
        assert(before@.remove(topic@).insert(topic@, row@) =~= before@.insert(topic@, row@));
    }
}

/// What happened to the messages of a topic.
#[derive(Debug, Clone, Copy, PartialEq, Eq, Structural)]
pub struct TopicStatsDelta {
    pub accepted: i64,
    pub duplicates: i64,
    pub delivered: i64,
}

impl View for TopicStatsDelta {
    type V = TopicStatsDelta;

    open spec fn view(&self) -> TopicStatsDelta {
        *self
    }
}

pub open spec fn delta_sum(a: TopicStatsDelta, b: TopicStatsDelta) -> TopicStatsDelta {
    TopicStatsDelta {
        accepted: sum(a.accepted, b.accepted),
        duplicates: sum(a.duplicates, b.duplicates),
        delivered: sum(a.delivered, b.delivered),
    }
}

/// How many messages were accepted and delivered in a minute.
#[derive(Debug, Clone, Copy, PartialEq, Eq, Structural)]
pub struct MessageTrendDelta {
    pub accepted: i64,
    pub delivered: i64,
}

impl View for MessageTrendDelta {
    type V = MessageTrendDelta;

    open spec fn view(&self) -> MessageTrendDelta {
        *self
    }
}

pub open spec fn trend_sum(a: MessageTrendDelta, b: MessageTrendDelta) -> MessageTrendDelta {
    MessageTrendDelta {
        accepted: sum(a.accepted, b.accepted),
        delivered: sum(a.delivered, b.delivered),
    }
}

/// How many messages of a topic wait and how many are held.
#[derive(Debug, Clone, Copy, PartialEq, Eq, Structural)]
pub struct Depth {
    pub pending: i64,
    pub processing: i64,
}

impl View for Depth {
    type V = Depth;

    open spec fn view(&self) -> Depth {
        *self
    }
}

pub open spec fn no_depth() -> Depth {
    Depth { pending: 0, processing: 0 }
}

pub open spec fn depth_in(depths: Map<Seq<char>, Depth>, topic: Seq<char>) -> Depth {
    if depths.contains_key(topic) {
        depths[topic]
    } else {
        no_depth()
    }
}

/// A depth is never negative.
pub open spec fn floor(n: i64) -> i64 {
    if n < 0 {
        0i64
    } else {
        n
    }
}

/// The depths after a change at one topic.
pub open spec fn depth_bumped(
    depths: Map<Seq<char>, Depth>,
    topic: Seq<char>,
    pending: i64,
    processing: i64,
) -> Map<Seq<char>, Depth> {
    let d = depth_in(depths, topic);
    depths.insert(
        topic,
        Depth {
            pending: floor(sum(d.pending, pending)),
            processing: floor(sum(d.processing, processing)),
        },
    )
}

/// Changes the depth of a topic.
pub fn bump_depth(depths: &mut TextMap<Depth>, topic: &str, pending: i64, processing: i64)
    ensures
        final(depths)@ == depth_bumped(old(depths)@, topic@, pending, processing),
{
    let d: Depth = match depths.get(topic) {
        Some(d) => *d,
        None => Depth { pending: 0, processing: 0 },
    };
    let waiting: i64 = sum_counts(d.pending, pending);
    let held: i64 = sum_counts(d.processing, processing);
    depths.set(
        topic.to_string(),
        Depth {
            pending: if waiting < 0 {
                0
            } else {
                waiting
            },
            processing: if held < 0 {
                0
            } else {
                held
            },
        },
    );
}

/// Counters of a topic after `change`, and when it was last seen.
pub open spec fn topic_bumped(
    topics: Topics,
    topic: Seq<char>,
    accepted: i64,
    duplicates: i64,
    delivered: i64,
    failed: i64,
    now: Seq<char>,
) -> Topics {
    let row = row_in(topics, topic);
    topics.insert(
        topic,
        TopicRowView {
            accepted: sum(row.accepted, accepted),
            duplicates: sum(row.duplicates, duplicates),
            delivered: sum(row.delivered, delivered),
            failed: sum(row.failed, failed),
            last_seen_at: Some(now),
            ..row
        },
    )
}

/// Adds to the counters of a topic.
pub fn bump_topic(
    topics: &mut TextMap<TopicRow>,
    topic: &str,
    accepted: i64,
    duplicates: i64,
    delivered: i64,
    failed: i64,
    now: &str,
)
    ensures
        final(topics)@ == topic_bumped(
            old(topics)@,
            topic@,
            accepted,
            duplicates,
            delivered,
            failed,
            now@,
        ),
{
    let ghost before = topics@;
    let mut row: TopicRow = take_row(topics, topic);
    row.accepted = sum_counts(row.accepted, accepted);
    row.duplicates = sum_counts(row.duplicates, duplicates);
    row.delivered = sum_counts(row.delivered, delivered);
    row.failed = sum_counts(row.failed, failed);
    row.last_seen_at = Some(now.to_string());
    put_row(topics, topic, row, Ghost(before));
}

pub open spec fn dropped_bumped(topics: Topics, topic: Seq<char>, dropped: i64, now: Seq<char>) -> Topics {
    let row = row_in(topics, topic);
    topics.insert(
        topic,
        TopicRowView { dropped: sum(row.dropped, dropped), last_seen_at: Some(now), ..row },
    )
}

/// Adds to the number of dropped messages of a topic.
pub fn bump_dropped_count(topics: &mut TextMap<TopicRow>, topic: &str, dropped: i64, now: &str)
    ensures
        final(topics)@ == dropped_bumped(old(topics)@, topic@, dropped, now@),
{
    let ghost before = topics@;
    let mut row: TopicRow = take_row(topics, topic);
    row.dropped = sum_counts(row.dropped, dropped);
    row.last_seen_at = Some(now.to_string());
    put_row(topics, topic, row, Ghost(before));
}

/// A subscription: wildcard filters are kept, exact topics that nobody
/// configured stay ephemeral, and configured topics keep their setting.
pub open spec fn subscription_noted(topics: Topics, topic: Seq<char>, now: Seq<char>) -> Topics {
    let row = row_in(topics, topic);
    topics.insert(
        topic,
        TopicRowView {
            persistence: if row.configured {
                row.persistence
            } else if topic::wild(topic) {
                "persistent"@
            } else {
                "ephemeral"@
            },
            last_seen_at: Some(now),
            ..row
        },
    )
}

/// Records a subscription.
pub fn note_subscription(topics: &mut TextMap<TopicRow>, topic: &str, now: &str)
    ensures
        final(topics)@ == subscription_noted(old(topics)@, topic@, now@),
{
    let ghost before = topics@;
    let mut row: TopicRow = take_row(topics, topic);
    if !row.configured {
        row.persistence = if topic::is_wildcard_filter(topic) {
            "persistent".to_string()
        } else {
            "ephemeral".to_string()
        };
    }
    row.last_seen_at = Some(now.to_string());
    put_row(topics, topic, row, Ghost(before));
}

/// An explicit configuration. The time of a topic seen before is kept.
pub open spec fn topic_configured(
    topics: Topics,
    config: crate::model::TopicConfigView,
    now: Seq<char>,
) -> Topics {
    let row = row_in(topics, config.topic);
    topics.insert(
        config.topic,
        TopicRowView {
            delivery: config.delivery.name(),
            persistence: config.persistence.name(),
            configured: true,
            last_seen_at: if topics.contains_key(config.topic) {
                row.last_seen_at
            } else {
                Some(now)
            },
            ..row
        },
    )
}

/// Records an explicit configuration.
pub fn configure_topic(topics: &mut TextMap<TopicRow>, config: &TopicConfig, now: &str)
    ensures
        final(topics)@ == topic_configured(old(topics)@, config@, now@),
{
    let ghost before = topics@;
    let topic: &str = config.topic.as_str();
    let known: bool = topics.contains(topic);
    let mut row: TopicRow = take_row(topics, topic);
    row.delivery = config.delivery.as_str().to_string();
    row.persistence = config.persistence.as_str().to_string();
    row.configured = true;
    if !known {
        row.last_seen_at = Some(now.to_string());
    }
    put_row(topics, topic, row, Ghost(before));
}

/// Whether clearing by `filter` resets the counters of `name`.
pub open spec fn reset_hits(filter: Seq<char>, name: Seq<char>) -> bool {
    name == filter || topic::selects(filter, name)
}

pub open spec fn without_counts(row: TopicRowView) -> TopicRowView {
    TopicRowView {
        accepted: 0,
        duplicates: 0,
        delivered: 0,
        failed: 0,
        dropped: 0,
        pending: 0,
        processing: 0,
        ..row
    }
}

pub open spec fn reset_by(filter: Seq<char>) -> spec_fn(Seq<char>, TopicRowView) -> TopicRowView {
    |name: Seq<char>, row: TopicRowView|
        if reset_hits(filter, name) {
            without_counts(row)
        } else {
            row
        }
}

/// Resets the counters of the topics that `filter` names.
pub fn reset_counts(topics: &mut TextMap<TopicRow>, filter: &str)
    ensures
        final(topics)@ == table::mapped(old(topics)@, reset_by(filter@)),
{
    let n: usize = topics.len();
    let ghost before = topics@;
    let ghost keys = topics.key_seq();
    let ghost f = reset_by(filter@);
    let mut i: usize = 0;
    proof {
        table::lemma_mapped_ends(before, keys, f);
    }
    while i < n
        invariant
            i <= n,
            n == keys.len(),
            keys == topics.key_seq(),
            keys.no_duplicates(),
            f == reset_by(filter@),
            forall|k: Seq<char>| #[trigger] before.contains_key(k) <==> keys.contains(k),
            topics@ == table::mapped_upto(before, keys, i as int, f),
        decreases n - i,
    {
        proof {
            assert(keys.contains(keys[i as int]));
            table::lemma_mapped_step(before, keys, i as int, f);
        }
        let hit: bool = text::text_eq(topics.key_at(i).as_str(), filter) || topic::filter_matches(
            filter,
            topics.key_at(i).as_str(),
        );
        let mut row: TopicRow = topics.value_at(i).clone();
        if hit {
            row.accepted = 0;
            row.duplicates = 0;
            row.delivered = 0;
            row.failed = 0;
            row.dropped = 0;
            row.pending = 0;
            row.processing = 0;
        }
        topics.replace_at(i, row);
        i = i + 1;
    }
    proof {
        table::lemma_mapped_ends(before, keys, f);
    }
}

/// Counters add up, and stay at their ends where they would leave them.
pub proof fn law_counters_add_up(a: i64, b: i64)
    ensures
        i64::MIN <= a + b <= i64::MAX ==> sum(a, b) == a + b,
        a + b > i64::MAX ==> sum(a, b) == i64::MAX,
        a + b < i64::MIN ==> sum(a, b) == i64::MIN,
        sum(a, b) == sum(b, a),
        sum(a, 0) == a,
{
}

/// A topic that is not in the catalogue counts from zero. It is broadcast,
/// ephemeral, and without settings of its own.
pub proof fn law_a_new_topic_counts_from_zero(topics: Topics, topic: Seq<char>)
    requires
        !topics.contains_key(topic),
    ensures
        ({
            let row = row_in(topics, topic);
            &&& row.accepted == 0 && row.duplicates == 0 && row.delivered == 0
            &&& row.failed == 0 && row.dropped == 0 && row.pending == 0 && row.processing == 0
            &&& row.delivery == "broadcast"@
            &&& row.persistence == "ephemeral"@
            &&& row.last_seen_at is None
            &&& !row.configured
        }),
        config_in(topics, topic).delivery == DeliveryMode::Broadcast,
        config_in(topics, topic).persistence == PersistenceMode::Ephemeral,
{
}

/// Counting messages of a topic adds to the numbers of that topic alone, notes
/// when it was seen, and leaves its settings as they are.
pub proof fn law_a_bump_adds_to_one_topic(
    topics: Topics,
    topic: Seq<char>,
    accepted: i64,
    duplicates: i64,
    delivered: i64,
    failed: i64,
    dropped: i64,
    now: Seq<char>,
    other: Seq<char>,
)
    requires
        other != topic,
    ensures
        ({
            let old = row_in(topics, topic);
            let new = topic_bumped(
                topics,
                topic,
                accepted,
                duplicates,
                delivered,
                failed,
                now,
            )[topic];
            &&& new.accepted == sum(old.accepted, accepted)
            &&& new.duplicates == sum(old.duplicates, duplicates)
            &&& new.delivered == sum(old.delivered, delivered)
            &&& new.failed == sum(old.failed, failed)
            &&& new.dropped == old.dropped
            &&& new.last_seen_at == Some(now)
            &&& new.delivery == old.delivery
            &&& new.persistence == old.persistence
            &&& new.configured == old.configured
        }),
        ({
            let old = row_in(topics, topic);
            let new = dropped_bumped(topics, topic, dropped, now)[topic];
            &&& new.dropped == sum(old.dropped, dropped)
            &&& new.accepted == old.accepted
            &&& new.duplicates == old.duplicates
            &&& new.delivered == old.delivered
            &&& new.failed == old.failed
            &&& new.last_seen_at == Some(now)
            &&& new.delivery == old.delivery
            &&& new.persistence == old.persistence
            &&& new.configured == old.configured
        }),
        ({
            let bumped = topic_bumped(
                topics,
                topic,
                accepted,
                duplicates,
                delivered,
                failed,
                now,
            );
            let dropped = dropped_bumped(topics, topic, dropped, now);
            &&& bumped.contains_key(other) == topics.contains_key(other)
            &&& dropped.contains_key(other) == topics.contains_key(other)
            &&& topics.contains_key(other) ==> bumped[other] == topics[other] && dropped[other]
                == topics[other]
        }),
{
}

/// A subscription puts its filter in the catalogue. Where nobody set the
/// persistence, a filter with a wildcard is persistent and any other ephemeral.
/// The numbers stay, and so does every other topic.
pub proof fn law_a_subscription_keeps_the_numbers(
    topics: Topics,
    topic: Seq<char>,
    now: Seq<char>,
    other: Seq<char>,
)
    requires
        other != topic,
    ensures
        ({
            let after = subscription_noted(topics, topic, now);
            let old = row_in(topics, topic);
            let new = after[topic];
            &&& after.contains_key(topic)
            &&& new.last_seen_at == Some(now)
            &&& old.configured ==> new.persistence == old.persistence
            &&& !old.configured && (topic.contains('+') || topic.contains('#'))
                ==> new.persistence == "persistent"@
            &&& !old.configured && !topic.contains('+') && !topic.contains('#')
                ==> new.persistence == "ephemeral"@
            &&& new.delivery == old.delivery
            &&& new.configured == old.configured
            &&& new.accepted == old.accepted && new.duplicates == old.duplicates
                && new.delivered == old.delivered && new.failed == old.failed && new.dropped
                == old.dropped
            &&& after.contains_key(other) == topics.contains_key(other)
            &&& topics.contains_key(other) ==> after[other] == topics[other]
        }),
{
}

/// Settings are written down in words, and a topic that has them keeps them. Its
/// numbers stay, and a known topic does not count as seen.
pub proof fn law_settings_are_written_in_words(
    topics: Topics,
    config: crate::model::TopicConfigView,
    now: Seq<char>,
    other: Seq<char>,
)
    requires
        other != config.topic,
    ensures
        ({
            let after = topic_configured(topics, config, now);
            let old = row_in(topics, config.topic);
            let new = after[config.topic];
            &&& after.contains_key(config.topic)
            &&& new.configured
            &&& config.delivery == DeliveryMode::Single ==> new.delivery == "single"@
            &&& config.delivery == DeliveryMode::Broadcast ==> new.delivery == "broadcast"@
            &&& config.persistence == PersistenceMode::Persistent ==> new.persistence
                == "persistent"@
            &&& config.persistence == PersistenceMode::Ephemeral ==> new.persistence
                == "ephemeral"@
            &&& topics.contains_key(config.topic) ==> new.last_seen_at == old.last_seen_at
            &&& !topics.contains_key(config.topic) ==> new.last_seen_at == Some(now)
            &&& new.accepted == old.accepted && new.duplicates == old.duplicates
                && new.delivered == old.delivered && new.failed == old.failed && new.dropped
                == old.dropped
            &&& after.contains_key(other) == topics.contains_key(other)
            &&& topics.contains_key(other) ==> after[other] == topics[other]
        }),
{
}

/// The depth of one topic moves by what is asked, but never below zero; the
/// depth of every other topic stays.
pub proof fn law_a_depth_is_never_negative(
    depths: Map<Seq<char>, Depth>,
    topic: Seq<char>,
    pending: i64,
    processing: i64,
    other: Seq<char>,
)
    requires
        other != topic,
    ensures
        ({
            let old = depth_in(depths, topic);
            let after = depth_bumped(depths, topic, pending, processing);
            let new = depth_in(after, topic);
            &&& new.pending >= 0
            &&& new.processing >= 0
            &&& 0 <= old.pending + pending <= i64::MAX ==> new.pending == old.pending + pending
            &&& 0 <= old.processing + processing <= i64::MAX ==> new.processing == old.processing
                + processing
            &&& old.pending + pending < 0 ==> new.pending == 0
            &&& old.processing + processing < 0 ==> new.processing == 0
            &&& depth_in(after, other) == depth_in(depths, other)
        }),
        !depths.contains_key(topic) ==> depth_in(depths, topic).pending == 0 && depth_in(
            depths,
            topic,
        ).processing == 0,
{
}

} // verus!
