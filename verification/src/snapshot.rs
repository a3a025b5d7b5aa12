//! Consumers of the store and the snapshot of its topics.
use vstd::prelude::*;
use vstd::string::*;

use crate::catalog;
use crate::clock;
use crate::clock::UtcTime;
use crate::consumers;
use crate::consumers::ConsumerRow;
use crate::db;
use crate::db::Database;
use crate::json;
use crate::json::Attributes;
use crate::model;
use crate::model::{ConsumerSnapshot, DeliveryMode, PersistenceMode, TopicSnapshot};
use crate::shard;
use crate::text;

verus! {

// ------------------------------------------------------------------ consumers

/// Only the consumers may have changed.
pub open spec fn consumers_only(before: Database, after: Database) -> bool {
    after == (Database { consumers: after.consumers, ..before })
}

/// The identifier under which a consumer is registered: its own, or the fresh
/// one if it has none.
pub open spec fn consumer_name(id: Option<Seq<char>>, fresh: Seq<char>) -> Seq<char> {
    match id {
        Some(own) => if own.len() > 0 {
            own
        } else {
            fresh
        },
        None => fresh,
    }
}

pub open spec fn consumer_registered(
    before: Database,
    after: Database,
    id: Seq<char>,
    what: consumers::RegistrationView,
    now: Seq<char>,
) -> bool {
    &&& after.consumers@ == consumers::registered(before.consumers@, id, what, now)
    &&& consumers_only(before, after)
}

pub open spec fn consumer_touched(
    before: Database,
    after: Database,
    id: Seq<char>,
    now: Seq<char>,
    known: bool,
) -> bool {
    &&& consumers_only(before, after)
    &&& match consumers::consumer_place(before.consumers@, id) {
        Some(i) => known && after.consumers@ == before.consumers@.update(
            i,
            consumers::ConsumerView { last_seen_at: now, ..before.consumers@[i] },
        ),
        None => !known && after.consumers@ == before.consumers@,
    }
}

impl Database {
    /// Registers a consumer under its own identifier, or under `fresh` if it has
    /// none. Gives the identifier.
    pub fn register_consumer_at(
        &mut self,
        consumer_id: Option<&str>,
        topic: &str,
        name: &str,
        attributes: &Attributes,
        fresh: &str,
        now: &str,
    ) -> (r: String)
        ensures
            r@ == consumer_name(text::opt_str(consumer_id), fresh@),
            consumer_registered(
                *old(self),
                *final(self),
                r@,
                (consumers::RegistrationView {
                    topic: topic@,
                    name: name@,
                    attributes: json::object_text(attributes@),
                }),
                now@,
            ),
            consumers::consumer_attributes(json::object_text(attributes@)) == attributes@,
    {
        let id: &str = match consumer_id {
            Some(own) => if own.unicode_len() > 0 {
                own
            } else {
                fresh
            },
            None => fresh,
        };
        let raw: String = json::attributes_text(attributes);
        self.consumers.register(id, topic, name, raw.as_str(), now);
        id.to_string()
    }

    /// Registers a consumer now. Gives the identifier.
    pub fn register_consumer(
        &mut self,
        consumer_id: Option<&str>,
        topic: &str,
        name: &str,
        attributes: &Attributes,
    ) -> (r: String)
        ensures
            exists|fresh: Seq<char>|
                shard::is_uuid_text(fresh) && r@ == #[trigger] consumer_name(
                    text::opt_str(consumer_id),
                    fresh,
                ),
            exists|now: UtcTime|
                now.valid() && consumer_registered(
                    *old(self),
                    *final(self),
                    r@,
                    (consumers::RegistrationView {
                        topic: topic@,
                        name: name@,
                        attributes: json::object_text(attributes@),
                    }),
                    #[trigger] clock::time_text(now),
                ),
    {
        let now: String = clock::text_of(clock::now());
        let fresh: String = shard::random_id();
        self.register_consumer_at(
            consumer_id,
            topic,
            name,
            attributes,
            fresh.as_str(),
            now.as_str(),
        )
    }

    /// The attribute of a consumer, if it has one that is not empty.
    pub fn consumer_attribute(&self, consumer_id: &str, key: &str) -> (r: Option<String>)
        ensures
            text::opt_text(r) == consumers::attribute_in(
                self.consumers@,
                consumer_id@,
                key@,
            ),
    {
        self.consumers.attribute(consumer_id, key)
    }

    /// Notes that a consumer was seen; says whether it is known.
    pub fn touch_consumer_at(&mut self, consumer_id: &str, now: &str) -> (r: bool)
        ensures
            consumer_touched(*old(self), *final(self), consumer_id@, now@, r),
    {
        self.consumers.touch(consumer_id, now)
    }

    /// Notes that a consumer was seen now; says whether it is known.
    pub fn touch_consumer(&mut self, consumer_id: &str) -> (r: bool)
        ensures
            exists|now: UtcTime|
                now.valid() && consumer_touched(
                    *old(self),
                    *final(self),
                    consumer_id@,
                    #[trigger] clock::time_text(now),
                    r,
                ),
    {
        let now: String = clock::text_of(clock::now());
        self.touch_consumer_at(consumer_id, now.as_str())
    }

    /// Removes a consumer; says whether it was known.
    pub fn unregister_consumer(&mut self, consumer_id: &str) -> (r: bool)
        ensures
            final(self).consumers@ == consumers::consumers_kept(
                old(self).consumers@,
                consumers::not_named(consumer_id@),
            ),
            r == (final(self).consumers@.len() < old(self).consumers@.len()),
            consumers_only(*old(self), *final(self)),
    {
        self.consumers.unregister(consumer_id)
    }

    /// Removes the consumers last seen before `cutoff`; counts them.
    pub fn purge_stale_consumers(&mut self, cutoff: &str) -> (r: usize)
        ensures
            final(self).consumers@ == consumers::consumers_kept(
                old(self).consumers@,
                consumers::not_seen_before(cutoff@),
            ),
            r == old(self).consumers@.len() - final(self).consumers@.len(),
            consumers_only(*old(self), *final(self)),
    {
        self.consumers.purge_stale(cutoff)
    }
}

// ------------------------------------------------------------------- snapshot

/// A consumer as the snapshot shows it.
pub open spec fn consumer_shown(
    c: consumers::ConsumerView,
    seen_after: Option<Seq<char>>,
) -> model::ConsumerSnapshotView {
    model::ConsumerSnapshotView {
        id: c.id,
        name: c.name,
        last_seen_at: c.last_seen_at,
        live: match seen_after {
            Some(cutoff) => !text::text_less(c.last_seen_at, cutoff),
            None => true,
        },
        attributes: consumers::consumer_attributes(c.attributes),
    }
}

/// The consumers of a topic as the snapshot shows them.
pub open spec fn consumers_shown(
    rows: Seq<consumers::ConsumerView>,
    topic: Seq<char>,
    seen_after: Option<Seq<char>>,
) -> Seq<model::ConsumerSnapshotView>
    decreases rows.len(),
{
    if rows.len() == 0 {
        Seq::empty()
    } else {
        let init = consumers_shown(rows.drop_last(), topic, seen_after);
        if rows.last().topic == topic {
            init.push(consumer_shown(rows.last(), seen_after))
        } else {
            init
        }
    }
}

/// What the catalogue says of a topic.
pub open spec fn row_shown(topics: catalog::Topics, name: Seq<char>) -> model::TopicSnapshotView {
    if topics.contains_key(name) {
        let row = topics[name];
        model::TopicSnapshotView {
            accepted: row.accepted,
            duplicates: row.duplicates,
            delivered: row.delivered,
            failed: row.failed,
            dropped: row.dropped,
            pending: row.pending,
            processing: row.processing,
            delivery: DeliveryMode::stored(row.delivery).name(),
            persistence: PersistenceMode::stored(row.persistence).name(),
            ..model::blank_snapshot(name)
        }
    } else {
        model::blank_snapshot(name)
    }
}

/// A topic in the snapshot: the catalogue, the current depths and the consumers.
pub open spec fn topic_shown(
    topics: catalog::Topics,
    depths: db::Depths,
    rows: Seq<consumers::ConsumerView>,
    seen_after: Option<Seq<char>>,
    name: Seq<char>,
) -> model::TopicSnapshotView {
    let base = row_shown(topics, name);
    model::TopicSnapshotView {
        pending: if depths.contains_key(name) {
            depths[name].pending
        } else {
            base.pending
        },
        processing: if depths.contains_key(name) {
            depths[name].processing
        } else {
            base.processing
        },
        consumers: consumers_shown(rows, name, seen_after),
        ..base
    }
}

/// The names that the snapshot shows.
pub open spec fn is_shown(
    topics: catalog::Topics,
    depths: db::Depths,
    rows: Seq<consumers::ConsumerView>,
    name: Seq<char>,
) -> bool {
    topics.contains_key(name) || depths.contains_key(name) || consumers::has_consumer(rows, name)
}

pub open spec fn snapshot_views(list: Seq<TopicSnapshot>) -> Seq<model::TopicSnapshotView> {
    list.map_values(|t: TopicSnapshot| t@)
}

/// The snapshot: every known topic once, by name.
pub open spec fn is_snapshot(
    topics: catalog::Topics,
    depths: db::Depths,
    rows: Seq<consumers::ConsumerView>,
    seen_after: Option<Seq<char>>,
    list: Seq<model::TopicSnapshotView>,
) -> bool {
    let names = list.map_values(|t: model::TopicSnapshotView| t.name);
    &&& text::ascending(names)
    &&& forall|t: Seq<char>| #[trigger] names.contains(t) <==> is_shown(topics, depths, rows, t)
    &&& forall|i: int|
        0 <= i < list.len() ==> #[trigger] list[i] == topic_shown(
            topics,
            depths,
            rows,
            seen_after,
            list[i].name,
        )
}

pub open spec fn snapshot_taken(
    before: Database,
    after: Database,
    seen_after: Option<Seq<char>>,
    now: Seq<char>,
    list: Seq<model::TopicSnapshotView>,
) -> bool {
    &&& db::stats_flushed(before, after, now)
    &&& is_snapshot(after.topics@, after.depths@, after.consumers@, seen_after, list)
}

impl Database {
    fn show_consumers(&self, topic: &str, seen_after: Option<&str>) -> (r: Vec<ConsumerSnapshot>)
        ensures
            r@.map_values(|c: ConsumerSnapshot| c@) == consumers_shown(
                self.consumers@,
                topic@,
                text::opt_str(seen_after),
            ),
    {
        let ghost rows = self.consumers@;
        let ghost cutoff = text::opt_str(seen_after);
        let mut out: Vec<ConsumerSnapshot> = Vec::new();
        let mut i: usize = 0;
        proof {
            assert(rows.take(0) =~= Seq::empty());
            assert(out@.map_values(|c: ConsumerSnapshot| c@) =~= Seq::empty());
        }
        while i < self.consumers.rows.len()
            invariant
                i <= self.consumers.rows@.len(),
                rows == self.consumers@,
                cutoff == text::opt_str(seen_after),
                out@.map_values(|c: ConsumerSnapshot| c@) == consumers_shown(
                    rows.take(i as int),
                    topic@,
                    cutoff,
                ),
            decreases self.consumers.rows.len() - i,
        {
            let row: &ConsumerRow = &self.consumers.rows[i];
            proof {
                assert(rows.take(i + 1).drop_last() =~= rows.take(i as int));
                assert(rows.take(i + 1).last() == row@);
            }
            if text::text_eq(row.topic.as_str(), topic) {
                let live: bool = match seen_after {
                    Some(at) => !text::less(row.last_seen_at.as_str(), at),
                    None => true,
                };
                let ghost so_far = out@.map_values(|c: ConsumerSnapshot| c@);
                out.push(
                    ConsumerSnapshot {
                        id: row.id.clone(),
                        name: row.name.clone(),
                        last_seen_at: row.last_seen_at.clone(),
                        live,
                        attributes: consumers::parse_consumer_attributes(row.attributes.as_str()),
                    },
                );
                proof {
                    assert(out@.map_values(|c: ConsumerSnapshot| c@) =~= so_far.push(
                        consumer_shown(row@, cutoff),
                    ));
                }
            }
            i = i + 1;
        }
        proof {
            assert(rows.take(rows.len() as int) =~= rows);
        }
        out
    }

    fn show_topic(&self, name: &str, seen_after: Option<&str>) -> (r: TopicSnapshot)
        ensures
            r@ == topic_shown(
                self.topics@,
                self.depths@,
                self.consumers@,
                text::opt_str(seen_after),
                name@,
            ),
    {
        let mut out: TopicSnapshot = TopicSnapshot::blank(name);
        match self.topics.get(name) {
            Some(row) => {
                out.accepted = row.accepted;
                out.duplicates = row.duplicates;
                out.delivered = row.delivered;
                out.failed = row.failed;
                out.dropped = row.dropped;
                out.pending = row.pending;
                out.processing = row.processing;
                out.delivery = DeliveryMode::from_stored(
                    row.delivery.as_str(),
                ).as_str().to_string();
                out.persistence = PersistenceMode::from_stored(
                    row.persistence.as_str(),
                ).as_str().to_string();
            },
            None => {},
        }
        match self.depths.get(name) {
            Some(depth) => {
                out.pending = depth.pending;
                out.processing = depth.processing;
            },
            None => {},
        }
        out.consumers = self.show_consumers(name, seen_after);
        out
    }

    /// The names of every known topic.
    fn shown_names(&self) -> (r: Vec<String>)
        ensures
            text::ascending(text::texts(r@)),
            forall|t: Seq<char>| #[trigger]
                text::texts(r@).contains(t) <==> is_shown(
                    self.topics@,
                    self.depths@,
                    self.consumers@,
                    t,
                ),
    {
        let mut out: Vec<String> = self.topics.sorted_keys();
        let ghost topics = self.topics@;
        let more: Vec<String> = self.depths.sorted_keys();
        let ghost ks = text::texts(more@);
        let mut i: usize = 0;
        while i < more.len()
            invariant
                i <= more@.len(),
                ks == text::texts(more@),
                text::ascending(text::texts(out@)),
                forall|t: Seq<char>| #[trigger]
                    text::texts(out@).contains(t) <==> (topics.contains_key(t) || ks.take(
                        i as int,
                    ).contains(t)),
            decreases more.len() - i,
        {
            proof {
                text::lemma_take_grows(ks, i as int);
            }
            text::insert_sorted(&mut out, more[i].clone());
            i = i + 1;
        }
        proof {
            assert(ks.take(ks.len() as int) =~= ks);
        }
        let ghost base = text::texts(out@);
        let ghost rows = self.consumers@;
        let mut n: usize = 0;
        while n < self.consumers.rows.len()
            invariant
                n <= self.consumers.rows@.len(),
                rows == self.consumers@,
                text::ascending(text::texts(out@)),
                forall|t: Seq<char>| #[trigger]
                    text::texts(out@).contains(t) <==> (base.contains(t) || exists|k: int|
                        0 <= k < n && (#[trigger] rows[k]).topic == t),
            decreases self.consumers.rows.len() - n,
        {
            let ghost before = text::texts(out@);
            text::insert_sorted(&mut out, self.consumers.rows[n].topic.clone());
            proof {
                assert(rows[n as int].topic == self.consumers.rows@[n as int].topic@);
                assert forall|t: Seq<char>| #[trigger] text::texts(out@).contains(t) <==> (
                base.contains(t) || exists|k: int|
                    0 <= k < n + 1 && (#[trigger] rows[k]).topic == t) by {
                    assert(before.contains(t) <==> (base.contains(t) || exists|k: int|
                        0 <= k < n && (#[trigger] rows[k]).topic == t));
                }
            }
            n = n + 1;
        }
        out
    }

    /// Counters, settings and consumers of every known topic, by name. Consumers
    /// not seen since `consumer_seen_after` are shown as not live.
    pub fn status_snapshot_at(&mut self, consumer_seen_after: Option<&str>, now: &str) -> (r: Vec<
        TopicSnapshot,
    >)
        ensures
            snapshot_taken(
                *old(self),
                *final(self),
                text::opt_str(consumer_seen_after),
                now@,
                snapshot_views(r@),
            ),
    {
        self.flush_topic_stats_at(now);
        let names: Vec<String> = self.shown_names();
        let ghost cutoff = text::opt_str(consumer_seen_after);
        let mut out: Vec<TopicSnapshot> = Vec::new();
        let mut i: usize = 0;
        while i < names.len()
            invariant
                i <= names@.len(),
                out@.len() == i,
                cutoff == text::opt_str(consumer_seen_after),
                forall|k: int|
                    0 <= k < i ==> (#[trigger] out@[k])@ == topic_shown(
                        self.topics@,
                        self.depths@,
                        self.consumers@,
                        cutoff,
                        names@[k]@,
                    ),
            decreases names.len() - i,
        {
            out.push(self.show_topic(names[i].as_str(), consumer_seen_after));
            i = i + 1;
        }
        proof {
            let list = snapshot_views(out@);
            assert(list.map_values(|t: model::TopicSnapshotView| t.name) =~= text::texts(names@));
            assert forall|k: int| 0 <= k < list.len() implies #[trigger] list[k] == topic_shown(
                self.topics@,
                self.depths@,
                self.consumers@,
                cutoff,
                list[k].name,
            ) by {
                assert(list[k] == out@[k]@);
            }
        }
        out
    }

    /// Counters, settings and consumers of every known topic now.
    pub fn status_snapshot(&mut self, consumer_seen_after: Option<&str>) -> (r: Vec<TopicSnapshot>)
        ensures
            exists|now: UtcTime|
                now.valid() && snapshot_taken(
                    *old(self),
                    *final(self),
                    text::opt_str(consumer_seen_after),
                    #[trigger] clock::time_text(now),
                    snapshot_views(r@),
                ),
    {
        let now: String = clock::text_of(clock::now());
        self.status_snapshot_at(consumer_seen_after, now.as_str())
    }
}

/// A consumer keeps the name it brings, and gets a fresh one where it brings
/// none.
pub proof fn law_a_consumer_keeps_its_own_name(own: Seq<char>, fresh: Seq<char>)
    ensures
        own.len() > 0 ==> consumer_name(Some(own), fresh) == own,
        own.len() == 0 ==> consumer_name(Some(own), fresh) == fresh,
        consumer_name(None, fresh) == fresh,
{
}

/// A consumer that is touched was seen now, and nothing else of it changes;
/// where nobody has the name nothing does.
pub proof fn law_a_touched_consumer_was_seen(
    before: Database,
    after: Database,
    id: Seq<char>,
    now: Seq<char>,
    known: bool,
)
    requires
        consumer_touched(before, after, id, now, known),
    ensures
        known <==> exists|i: int|
            0 <= i < before.consumers@.len() && (#[trigger] before.consumers@[i]).id == id,
        after.consumers@.len() == before.consumers@.len(),
        known ==> exists|i: int|
            0 <= i < before.consumers@.len() && (#[trigger] before.consumers@[i]).id == id
                && after.consumers@[i].last_seen_at == now && after.consumers@[i].id == id
                && after.consumers@[i].created_at == before.consumers@[i].created_at
                && after.consumers@[i].topic == before.consumers@[i].topic
                && after.consumers@[i].name == before.consumers@[i].name
                && after.consumers@[i].attributes == before.consumers@[i].attributes && (forall|
                j: int,
            |
                0 <= j < before.consumers@.len() && j != i ==> #[trigger] after.consumers@[j]
                    == before.consumers@[j]),
        !known ==> after.consumers@ == before.consumers@,
        after.rows() == before.rows(),
        after.topics@ == before.topics@,
{
    consumers::lemma_consumer_place(before.consumers@, id);
}

/// A consumer is shown as it is stored. It is live where it was not last seen
/// before the time that counts, and always where no time counts.
pub proof fn law_a_consumer_is_shown_as_it_is(
    c: consumers::ConsumerView,
    cutoff: Seq<char>,
)
    ensures
        consumer_shown(c, Some(cutoff)).live == !text::text_less(c.last_seen_at, cutoff),
        consumer_shown(c, None).live,
        consumer_shown(c, None).id == c.id,
        consumer_shown(c, None).name == c.name,
        consumer_shown(c, None).last_seen_at == c.last_seen_at,
        consumer_shown(c, None).attributes == crate::json::string_map_of(c.attributes),
        consumer_shown(c, Some(cutoff)) == (model::ConsumerSnapshotView {
            live: !text::text_less(c.last_seen_at, cutoff),
            ..consumer_shown(c, None)
        }),
{
}

/// The consumers of a topic are shown with it, in the order in which they came.
pub proof fn law_a_topic_shows_its_own_consumers(
    a: Seq<consumers::ConsumerView>,
    b: Seq<consumers::ConsumerView>,
    topic: Seq<char>,
    seen_after: Option<Seq<char>>,
)
    ensures
        consumers_shown(a + b, topic, seen_after) == consumers_shown(a, topic, seen_after)
            + consumers_shown(b, topic, seen_after),
        a.len() == 1 && a[0].topic == topic ==> consumers_shown(a, topic, seen_after) == seq![
            consumer_shown(a[0], seen_after),
        ],
        a.len() == 1 && a[0].topic != topic ==> consumers_shown(a, topic, seen_after).len() == 0,
        a.len() == 0 ==> consumers_shown(a, topic, seen_after).len() == 0,
    decreases b.len(),
{
    if b.len() > 0 {
        law_a_topic_shows_its_own_consumers(a, b.drop_last(), topic, seen_after);
        assert((a + b).drop_last() =~= a + b.drop_last());
        assert((a + b).last() == b.last());
    } else {
        assert(a + b =~= a);
        assert(consumers_shown(a, topic, seen_after) + consumers_shown(b, topic, seen_after)
            =~= consumers_shown(a, topic, seen_after));
    }
    if a.len() == 1 {
        reveal_with_fuel(consumers_shown, 2);
        assert(a.drop_last().len() == 0);
        assert(a.last() == a[0]);
    }
}

/// A topic is shown with the numbers of the catalogue, zero where it is not in
/// it. How many messages wait and are held comes from the depths where they know
/// the topic. The settings of a known topic are shown in words.
pub proof fn law_a_topic_is_shown_with_its_numbers(
    topics: catalog::Topics,
    depths: db::Depths,
    rows: Seq<consumers::ConsumerView>,
    seen_after: Option<Seq<char>>,
    name: Seq<char>,
)
    ensures
        ({
            let shown = topic_shown(topics, depths, rows, seen_after, name);
            let row = catalog::row_in(topics, name);
            &&& shown.name == name
            &&& shown.accepted == row.accepted
            &&& shown.duplicates == row.duplicates
            &&& shown.delivered == row.delivered
            &&& shown.failed == row.failed
            &&& shown.dropped == row.dropped
            &&& depths.contains_key(name) ==> shown.pending == depths[name].pending
                && shown.processing == depths[name].processing
            &&& !depths.contains_key(name) ==> shown.pending == row.pending && shown.processing
                == row.processing
            &&& shown.consumers == consumers_shown(rows, name, seen_after)
            &&& shown.streams == 0
            &&& topics.contains_key(name) ==> {
                &&& row.delivery == "single"@ ==> shown.delivery == "single"@
                &&& row.delivery == "broadcast"@ ==> shown.delivery == "broadcast"@
                &&& row.persistence == "persistent"@ ==> shown.persistence == "persistent"@
                &&& row.persistence == "ephemeral"@ ==> shown.persistence == "ephemeral"@
            }
            &&& !topics.contains_key(name) ==> shown.delivery.len() == 0 && shown.persistence.len()
                == 0
        }),
{
    model::law_stored_names_read_back(DeliveryMode::Single, PersistenceMode::Persistent);
    model::law_stored_names_read_back(DeliveryMode::Broadcast, PersistenceMode::Ephemeral);
}

/// A snapshot shows every topic once, by name: those of the catalogue, those
/// with messages that wait or are held, and those with consumers.
pub proof fn law_a_snapshot_shows_every_topic(
    topics: catalog::Topics,
    depths: db::Depths,
    rows: Seq<consumers::ConsumerView>,
    seen_after: Option<Seq<char>>,
    list: Seq<model::TopicSnapshotView>,
    name: Seq<char>,
)
    requires
        is_snapshot(topics, depths, rows, seen_after, list),
    ensures
        (exists|i: int| 0 <= i < list.len() && (#[trigger] list[i]).name == name) <==> (
        topics.contains_key(name) || depths.contains_key(name) || exists|i: int|
            0 <= i < rows.len() && (#[trigger] rows[i]).topic == name),
        forall|i: int|
            0 <= i < list.len() ==> (#[trigger] list[i]) == topic_shown(
                topics,
                depths,
                rows,
                seen_after,
                list[i].name,
            ),
        forall|i: int, j: int|
            0 <= i < j < list.len() ==> text::text_less(
                (#[trigger] list[i]).name,
                (#[trigger] list[j]).name,
            ),
{
    let names = list.map_values(|t: model::TopicSnapshotView| t.name);
    assert(names.contains(name) <==> is_shown(topics, depths, rows, name));
    if names.contains(name) {
        let i = names.index_of(name);
        assert(list[i].name == name);
    }
    if exists|i: int| 0 <= i < list.len() && (#[trigger] list[i]).name == name {
        let i = choose|i: int| 0 <= i < list.len() && (#[trigger] list[i]).name == name;
        assert(names[i] == name);
    }
    assert forall|i: int, j: int| 0 <= i < j < list.len() implies text::text_less(
        (#[trigger] list[i]).name,
        (#[trigger] list[j]).name,
    ) by {
        assert(text::text_less(names[i], names[j]));
    }
}

/// Registering a consumer changes the consumers alone: there is one more, or a
/// known one says something new.
pub proof fn law_registering_changes_the_consumers_alone(
    before: Database,
    after: Database,
    id: Seq<char>,
    what: consumers::RegistrationView,
    now: Seq<char>,
)
    requires
        consumer_registered(before, after, id, what, now),
    ensures
        exists|i: int|
            0 <= i < after.consumers@.len() && (#[trigger] after.consumers@[i]).id == id
                && after.consumers@[i].topic == what.topic && after.consumers@[i].name == what.name
                && after.consumers@[i].attributes == what.attributes
                && after.consumers@[i].last_seen_at == now,
        after.rows() == before.rows(),
        after.topics@ == before.topics@,
{
    consumers::law_a_registered_consumer_is_known(before.consumers@, id, what, now);
    consumers::lemma_consumer_place(after.consumers@, id);
}

} // verus!
