//! Bringing the store up from what was kept on disk.
use vstd::prelude::*;
use vstd::string::*;

use crate::catalog;
use crate::catalog::{Depth, TopicRow};
use crate::clock;
use crate::clock::UtcTime;
use crate::consumers;
use crate::db;
use crate::db::Database;
use crate::messages;
use crate::messages::{MessageRow, MessageStatus, MessageView};
use crate::model;
use crate::model::TopicConfig;
use crate::retention;
use crate::shard;
use crate::shard::MESSAGE_SHARDS;
use crate::table;
use crate::table::TextMap;
use crate::text;
use crate::topic;

verus! {

// ------------------------------------------------------------------- migration

/// A message of the old single table as it goes to its shard.
pub open spec fn moved(m: MessageView) -> MessageView {
    MessageView { id: shard::migrated_id(m.topic, m.id), ..m }
}

/// Whether a message with the idempotency key of `m` is stored.
pub open spec fn key_is_taken(rows: Seq<db::Rows>, m: MessageView) -> bool {
    m.idempotency_key matches Some(key) && db::key_place(rows, key) is Some
}

/// The shards with `m` in its own, unless a message there has its identifier or
/// any message has its idempotency key.
pub open spec fn copied_into(rows: Seq<db::Rows>, m: MessageView) -> Seq<db::Rows> {
    let s = shard::shard_of(m.topic);
    if key_is_taken(rows, m) {
        rows
    } else {
        rows.update(s, messages::inserted(rows[s], m))
    }
}

/// The shards once the first `n` of the old messages were copied.
pub open spec fn migrated(rows: Seq<db::Rows>, old: db::Rows, n: int) -> Seq<db::Rows>
    decreases n,
{
    if n <= 0 {
        rows
    } else {
        copied_into(migrated(rows, old, n - 1), moved(old[n - 1]))
    }
}

/// Whether the `i`-th of the old messages is in its shard once it was copied.
pub open spec fn arrived(rows: Seq<db::Rows>, old: db::Rows, i: int) -> bool {
    let m = moved(old[i]);
    messages::first_place(
        migrated(rows, old, i + 1)[shard::shard_of(m.topic)],
        messages::has_id(m.id),
    ) is Some
}

/// The old message that could not be copied, because another one has its
/// idempotency key.
pub struct NotCopied {
    pub id: String,
}

impl Database {
    /// Copies the messages of the old single table into their shards. The old
    /// messages stay where they are.
    pub fn migrate_legacy_messages(&mut self, old_rows: &Vec<MessageRow>) -> (r: Result<
        (),
        NotCopied,
    >)
        requires
            old(self).wf(),
        ensures
            final(self).wf(),
            *final(self) == (Database { shards: final(self).shards, ..*old(self) }),
            ({
                let rows = old(self).rows();
                let list = messages::row_views(old_rows@);
                match r {
                    Ok(_) => {
                        &&& final(self).rows() == migrated(rows, list, list.len() as int)
                        &&& forall|i: int| 0 <= i < list.len() ==> #[trigger] arrived(rows, list, i)
                    },
                    Err(fault) => exists|i: int|
                        0 <= i < list.len() && !(#[trigger] arrived(rows, list, i)) && fault.id@
                            == moved(list[i]).id && (forall|k: int|
                            0 <= k < i ==> #[trigger] arrived(rows, list, k)) && final(self).rows()
                            == migrated(rows, list, i + 1),
                }
            }),
    {
        let ghost before = *self;
        let ghost rows = before.rows();
        let ghost list = messages::row_views(old_rows@);
        let mut i: usize = 0;
        while i < old_rows.len()
            invariant
                i <= old_rows@.len(),
                self.wf(),
                before == *old(self),
                before.wf(),
                rows == before.rows(),
                list == messages::row_views(old_rows@),
                *self == (Database { shards: self.shards, ..before }),
                self.rows() == migrated(rows, list, i as int),
                forall|k: int| 0 <= k < i ==> #[trigger] arrived(rows, list, k),
            decreases old_rows.len() - i,
        {
            let ghost here = self.rows();
            let mut row: MessageRow = old_rows[i].clone();
            let s: usize = shard::topic_shard(row.topic.as_str());
            let id: String = shard::migrate_id(row.topic.as_str(), row.id.as_str());
            row.id = id.clone();
            proof {
                assert(list[i as int] == old_rows@[i as int]@);
                assert(row@ == moved(list[i as int]));
                assert(here[s as int] == self.shards@[s as int]@);
            }
            let taken: bool = match &row.idempotency_key {
                Some(key) => self.find_key(key.as_str()).is_some(),
                None => false,
            };
            if !taken {
                self.shards[s].insert(row);
            }
            proof {
                assert(self.rows() =~= copied_into(here, moved(list[i as int])));
                assert(self.rows()[s as int] == self.shards@[s as int]@);
            }
            if self.shards[s].find_id(id.as_str()).is_none() {
                assert(!arrived(rows, list, i as int));
                return Err(NotCopied { id });
            }
            assert(arrived(rows, list, i as int));
            i = i + 1;
        }
        Ok(())
    }
}

// ------------------------------------------------------------------- catalogue

/// Topics without a time get the current one.
pub open spec fn seen_by(now: Seq<char>) -> spec_fn(
    Seq<char>,
    catalog::TopicRowView,
) -> catalog::TopicRowView {
    |name: Seq<char>, row: catalog::TopicRowView|
        catalog::TopicRowView {
            last_seen_at: match row.last_seen_at {
                Some(seen) => Some(seen),
                None => Some(now),
            },
            ..row
        }
}

/// Only wildcard filters need a durable row; exact topics that nobody configured
/// keep the implicit, ephemeral policy.
pub open spec fn demoted() -> spec_fn(
    Seq<char>,
    catalog::TopicRowView,
) -> catalog::TopicRowView {
    |name: Seq<char>, row: catalog::TopicRowView|
        if !row.configured && row.persistence == "persistent"@ && !topic::wild(name) {
            catalog::TopicRowView { persistence: "ephemeral"@, ..row }
        } else {
            row
        }
}

/// Depths are counted afresh.
pub open spec fn undepthed() -> spec_fn(
    Seq<char>,
    catalog::TopicRowView,
) -> catalog::TopicRowView {
    |name: Seq<char>, row: catalog::TopicRowView|
        catalog::TopicRowView { pending: 0, processing: 0, ..row }
}

/// Counts of the old messages, per topic.
pub open spec fn old_counts(old: db::Rows) -> catalog::Topics
    decreases old.len(),
{
    if old.len() == 0 {
        Map::empty()
    } else {
        let init = old_counts(old.drop_last());
        let m = old.last();
        let row = catalog::row_in(init, m.topic);
        init.insert(
            m.topic,
            catalog::TopicRowView {
                accepted: catalog::sum(row.accepted, 1),
                delivered: catalog::sum(
                    row.delivered,
                    db::one_if(m.status == MessageStatus::Delivered),
                ),
                failed: catalog::sum(row.failed, db::one_if(m.status == MessageStatus::Failed)),
                ..row
            },
        )
    }
}

/// The entry that is there wins.
pub open spec fn first_wins() -> spec_fn(
    Option<catalog::TopicRowView>,
    catalog::TopicRowView,
) -> catalog::TopicRowView {
    |have: Option<catalog::TopicRowView>, new: catalog::TopicRowView|
        match have {
            Some(row) => row,
            None => new,
        }
}

/// The catalogue with a fresh row for every topic that a consumer serves.
pub open spec fn served_topics(
    topics: catalog::Topics,
    rows: Seq<consumers::ConsumerView>,
    n: int,
) -> catalog::Topics
    decreases n,
{
    if n <= 0 {
        topics
    } else {
        let init = served_topics(topics, rows, n - 1);
        if init.contains_key(rows[n - 1].topic) {
            init
        } else {
            init.insert(rows[n - 1].topic, catalog::fresh_topic())
        }
    }
}

/// The catalogue takes over the counted depths.
pub open spec fn depth_set(now: Seq<char>) -> spec_fn(
    Option<catalog::TopicRowView>,
    Depth,
) -> catalog::TopicRowView {
    |have: Option<catalog::TopicRowView>, d: Depth|
        match have {
            Some(row) => catalog::TopicRowView {
                pending: d.pending,
                processing: d.processing,
                ..row
            },
            None => catalog::TopicRowView {
                pending: d.pending,
                processing: d.processing,
                last_seen_at: Some(now),
                ..catalog::fresh_topic()
            },
        }
}

/// The catalogue after a start.
pub open spec fn topics_started(
    topics: catalog::Topics,
    old: db::Rows,
    served: Seq<consumers::ConsumerView>,
    depths: db::Depths,
    now: Seq<char>,
) -> catalog::Topics {
    let seen = table::mapped(table::mapped(topics, seen_by(now)), demoted());
    let counted = table::merged(seen, old_counts(old), first_wins());
    let listed = served_topics(counted, served, served.len() as int);
    table::merged(table::mapped(listed, undepthed()), depths, depth_set(now))
}

/// The settings of every topic.
pub open spec fn settings_of(topics: catalog::Topics) -> Map<Seq<char>, model::TopicConfigView> {
    Map::new(
        |k: Seq<char>| topics.contains_key(k),
        |k: Seq<char>| catalog::row_config(k, topics[k]),
    )
}

/// How a row of the catalogue changes at a start.
enum Mend {
    Seen(String),
    Demoted,
    Undepthed,
}

impl Mend {
    spec fn rule(&self) -> spec_fn(Seq<char>, catalog::TopicRowView) -> catalog::TopicRowView {
        match self {
            Mend::Seen(now) => seen_by(now@),
            Mend::Demoted => demoted(),
            Mend::Undepthed => undepthed(),
        }
    }

    fn apply(&self, name: &str, row: TopicRow) -> (r: TopicRow)
        ensures
            r@ == (self.rule())(name@, row@),
    {
        let mut row: TopicRow = row;
        match self {
            Mend::Seen(now) => {
                if row.last_seen_at.is_none() {
                    row.last_seen_at = Some(now.clone());
                }
            },
            Mend::Demoted => {
                if !row.configured && text::text_eq(row.persistence.as_str(), "persistent")
                    && !topic::is_wildcard_filter(name) {
                    row.persistence = "ephemeral".to_string();
                }
            },
            Mend::Undepthed => {
                row.pending = 0;
                row.processing = 0;
            },
        }
        row
    }
}

/// Changes every row of the catalogue.
fn mend_topics(topics: &mut TextMap<TopicRow>, how: &Mend)
    ensures
        final(topics)@ == table::mapped(old(topics)@, how.rule()),
{
    let n: usize = topics.len();
    let ghost before = topics@;
    let ghost keys = topics.key_seq();
    let ghost f = how.rule();
    let mut i: usize = 0;
    proof {
        table::lemma_mapped_ends(before, keys, f);
    }
    while i < n
        invariant
            i <= n,
            n == keys.len(),
            keys == topics.key_seq(),
            keys.no_duplicates(),
            f == how.rule(),
            forall|k: Seq<char>| #[trigger] before.contains_key(k) <==> keys.contains(k),
            topics@ == table::mapped_upto(before, keys, i as int, f),
        decreases n - i,
    {
        proof {
            assert(keys.contains(keys[i as int]));
            table::lemma_mapped_step(before, keys, i as int, f);
        }
        let row: TopicRow = topics.value_at(i).clone();
        let row: TopicRow = how.apply(topics.key_at(i).as_str(), row);
        topics.replace_at(i, row);
        i = i + 1;
    }
    proof {
        table::lemma_mapped_ends(before, keys, f);
    }
}

/// Counts the old messages per topic.
fn count_old(old_rows: &Vec<MessageRow>) -> (r: TextMap<TopicRow>)
    ensures
        r@ == old_counts(messages::row_views(old_rows@)),
{
    let mut out: TextMap<TopicRow> = TextMap::new();
    let ghost list = messages::row_views(old_rows@);
    let mut i: usize = 0;
    proof {
        assert(list.take(0) =~= Seq::empty());
    }
    while i < old_rows.len()
        invariant
            i <= old_rows@.len(),
            list == messages::row_views(old_rows@),
            out@ == old_counts(list.take(i as int)),
        decreases old_rows.len() - i,
    {
        proof {
            assert(list.take(i + 1).drop_last() =~= list.take(i as int));
            assert(list.take(i + 1).last() == old_rows@[i as int]@);
        }
        let ghost before = out@;
        let m: &MessageRow = &old_rows[i];
        let mut row: TopicRow = match out.take(m.topic.as_str()) {
            Some(row) => row,
            None => TopicRow::fresh(),
        };
        row.accepted = catalog::sum_counts(row.accepted, 1);
        row.delivered = catalog::sum_counts(
            row.delivered,
            if m.status == MessageStatus::Delivered {
                1
            } else {
                0
            },
        );
        row.failed = catalog::sum_counts(
            row.failed,
            if m.status == MessageStatus::Failed {
                1
            } else {
                0
            },
        );
        let ghost state = row@;
        out.set(m.topic.clone(), row);
        proof {
            assert(before.remove(m.topic@).insert(m.topic@, state) =~= before.insert(
                m.topic@,
                state,
            ));
        }
        i = i + 1;
    }
    proof {
        assert(list.take(list.len() as int) =~= list);
    }
    out
}

/// Adds the rows of topics that the catalogue does not hold.
fn add_missing(topics: &mut TextMap<TopicRow>, more: &TextMap<TopicRow>)
    ensures
        final(topics)@ == table::merged(old(topics)@, more@, first_wins()),
{
    let n: usize = more.len();
    let ghost a = topics@;
    let ghost b = more@;
    let ghost keys = more.key_seq();
    let ghost g = first_wins();
    let mut i: usize = 0;
    proof {
        table::lemma_merged_ends(a, b, keys, g);
    }
    while i < n
        invariant
            i <= n,
            n == keys.len(),
            keys == more.key_seq(),
            b == more@,
            g == first_wins(),
            keys.no_duplicates(),
            topics@ == table::merged_upto(a, b, keys, i as int, g),
        decreases n - i,
    {
        proof {
            table::lemma_merged_step(a, b, keys, i as int, g);
        }
        let ghost here = topics@;
        if topics.contains(more.key_at(i).as_str()) {
            proof {
                assert(here.insert(keys[i as int], here[keys[i as int]]) =~= here);
            }
        } else {
            topics.set(more.key_at(i).clone(), more.value_at(i).clone());
        }
        i = i + 1;
    }
    proof {
        table::lemma_merged_ends(a, b, keys, g);
    }
}

/// Takes the counted depths over into the catalogue.
fn set_depths(topics: &mut TextMap<TopicRow>, depths: &TextMap<Depth>, now: &str)
    ensures
        final(topics)@ == table::merged(old(topics)@, depths@, depth_set(now@)),
{
    let n: usize = depths.len();
    let ghost a = topics@;
    let ghost b = depths@;
    let ghost keys = depths.key_seq();
    let ghost g = depth_set(now@);
    let mut i: usize = 0;
    proof {
        table::lemma_merged_ends(a, b, keys, g);
    }
    while i < n
        invariant
            i <= n,
            n == keys.len(),
            keys == depths.key_seq(),
            b == depths@,
            g == depth_set(now@),
            keys.no_duplicates(),
            topics@ == table::merged_upto(a, b, keys, i as int, g),
        decreases n - i,
    {
        proof {
            table::lemma_merged_step(a, b, keys, i as int, g);
        }
        let ghost here = topics@;
        let d: Depth = *depths.value_at(i);
        let name: &String = depths.key_at(i);
        let known: bool = topics.contains(name.as_str());
        let mut row: TopicRow = match topics.take(name.as_str()) {
            Some(row) => row,
            None => TopicRow::fresh(),
        };
        row.pending = d.pending;
        row.processing = d.processing;
        if !known {
            row.last_seen_at = Some(now.to_string());
        }
        let ghost state = row@;
        topics.set(name.clone(), row);
        proof {
            assert(here.remove(keys[i as int]).insert(keys[i as int], state) =~= here.insert(
                keys[i as int],
                state,
            ));
        }
        i = i + 1;
    }
    proof {
        table::lemma_merged_ends(a, b, keys, g);
    }
}

/// A start keeps every old message in its place. Those that were in the hands of
/// a worker wait again, and nothing else is changed in them.
pub open spec fn old_kept(before: Seq<MessageRow>, after: Seq<MessageRow>) -> bool {
    messages::row_views(after) == messages::changed(
        messages::row_views(before),
        messages::in_hand(),
        messages::to_pending(),
    )
}

/// The store that a start makes of what was loaded. Every old message that was
/// to be copied is in its shard.
pub open spec fn started(
    loaded: Database,
    old: db::Rows,
    copied: bool,
    now: Seq<char>,
    after: Database,
) -> bool {
    let old = messages::changed(old, messages::in_hand(), messages::to_pending());
    let own = retention::changed_all(loaded.rows(), messages::in_hand(), messages::to_pending());
    &&& after.wf()
    &&& after.rows() == (if copied {
        own
    } else {
        migrated(own, old, old.len() as int)
    })
    &&& copied || forall|i: int| 0 <= i < old.len() ==> #[trigger] arrived(own, old, i)
    &&& after.depths@ == db::depths_of(after.rows())
    &&& after.topics@ == topics_started(
        loaded.topics@,
        old,
        loaded.consumers@,
        after.depths@,
        now,
    )
    &&& after.configs@ == settings_of(after.topics@)
    &&& after == (Database {
        shards: after.shards,
        depths: after.depths,
        topics: after.topics,
        configs: after.configs,
        ..loaded
    })
}

/// An old message could not be copied at a start.
pub open spec fn start_refused(loaded: Database, old: db::Rows, copied: bool, id: Seq<char>) -> bool {
    let old = messages::changed(old, messages::in_hand(), messages::to_pending());
    let own = retention::changed_all(loaded.rows(), messages::in_hand(), messages::to_pending());
    &&& !copied
    &&& exists|i: int|
        0 <= i < old.len() && !(#[trigger] arrived(own, old, i)) && id == moved(old[i]).id && (
        forall|k: int| 0 <= k < i ==> #[trigger] arrived(own, old, k))
}

impl Database {
    /// Brings the store up from what was loaded. Messages that were in the hands
    /// of a worker wait again, the messages of the old single table are copied
    /// into their shards unless that was done before, the catalogue is put in
    /// order and the depths are counted.
    pub fn connect_at(
        loaded: Database,
        old_rows: &mut Vec<MessageRow>,
        copied: bool,
        now: &str,
    ) -> (r: Result<Database, NotCopied>)
        requires
            loaded.wf(),
        ensures
            old_kept(old(old_rows)@, final(old_rows)@),
            match r {
                Ok(db) => started(
                    loaded,
                    messages::row_views(old(old_rows)@),
                    copied,
                    now@,
                    db,
                ),
                Err(fault) => start_refused(
                    loaded,
                    messages::row_views(old(old_rows)@),
                    copied,
                    fault.id@,
                ),
            },
    {
        let ghost old_views = messages::row_views(old_rows@);
        let ghost old_waiting = messages::changed(
            old_views,
            messages::in_hand(),
            messages::to_pending(),
        );
        let mut i: usize = 0;
        while i < old_rows.len()
            invariant
                i <= old_rows@.len(),
                old_rows@.len() == old_views.len(),
                forall|k: int|
                    0 <= k < old_rows@.len() ==> (#[trigger] old_rows@[k])@ == (if k < i && (
                    messages::in_hand())(old_views[k]) {
                        messages::as_pending(old_views[k])
                    } else {
                        old_views[k]
                    }),
            decreases old_rows.len() - i,
        {
            if old_rows[i].status == MessageStatus::Processing {
                let mut row: MessageRow = old_rows[i].clone();
                row.status = MessageStatus::Pending;
                row.lease = None;
                old_rows.set(i, row);
            }
            i = i + 1;
        }
        proof {
            assert(messages::row_views(old_rows@) =~= old_waiting);
        }
        let mut db: Database = loaded;
        let ghost all = loaded.rows();
        let mut s: usize = 0;
        while s < MESSAGE_SHARDS
            invariant
                s <= MESSAGE_SHARDS,
                db.wf(),
                all == loaded.rows(),
                all.len() == MESSAGE_SHARDS,
                db == (Database { shards: db.shards, ..loaded }),
                forall|k: int|
                    0 <= k < MESSAGE_SHARDS ==> (#[trigger] db.shards@[k])@ == (if k < s {
                        messages::changed(all[k], messages::in_hand(), messages::to_pending())
                    } else {
                        all[k]
                    }),
            decreases MESSAGE_SHARDS - s,
        {
            db.shards[s].recover();
            s = s + 1;
        }
        let ghost own = retention::changed_all(all, messages::in_hand(), messages::to_pending());
        proof {
            assert(db.rows() =~= own);
        }
        if !copied {
            match db.migrate_legacy_messages(old_rows) {
                Ok(_) => {},
                Err(fault) => return Err(fault),
            }
        }
        mend_topics(&mut db.topics, &Mend::Seen(now.to_string()));
        mend_topics(&mut db.topics, &Mend::Demoted);
        let counts: TextMap<TopicRow> = count_old(old_rows);
        add_missing(&mut db.topics, &counts);
        let ghost counted = db.topics@;
        let ghost served = db.consumers@;
        let mut n: usize = 0;
        let ghost base = db;
        while n < db.consumers.rows.len()
            invariant
                n <= db.consumers.rows@.len(),
                served == db.consumers@,
                db == (Database { topics: db.topics, ..base }),
                db.topics@ == served_topics(counted, served, n as int),
            decreases db.consumers.rows.len() - n,
        {
            proof {
                assert(served[n as int].topic == db.consumers.rows@[n as int].topic@);
            }
            let name: String = db.consumers.rows[n].topic.clone();
            if !db.topics.contains(name.as_str()) {
                db.topics.set(name, TopicRow::fresh());
            }
            n = n + 1;
        }
        mend_topics(&mut db.topics, &Mend::Undepthed);
        db.depths = db::load_queue_depths(&db.shards);
        set_depths(&mut db.topics, &db.depths, now);
        let settings: TextMap<TopicConfig> = load_settings(&db.topics);
        db.configs = settings;
        Ok(db)
    }

    /// Brings the store up now.
    pub fn connect(loaded: Database, old_rows: &mut Vec<MessageRow>, copied: bool) -> (r: Result<
        Database,
        NotCopied,
    >)
        requires
            loaded.wf(),
        ensures
            old_kept(old(old_rows)@, final(old_rows)@),
            match r {
                Ok(db) => exists|now: UtcTime|
                    now.valid() && started(
                        loaded,
                        messages::row_views(old(old_rows)@),
                        copied,
                        #[trigger] clock::time_text(now),
                        db,
                    ),
                Err(fault) => start_refused(
                    loaded,
                    messages::row_views(old(old_rows)@),
                    copied,
                    fault.id@,
                ),
            },
    {
        let now: String = clock::text_of(clock::now());
        Database::connect_at(loaded, old_rows, copied, now.as_str())
    }
}

/// The settings of every topic.
fn load_settings(topics: &TextMap<TopicRow>) -> (r: TextMap<TopicConfig>)
    ensures
        r@ == settings_of(topics@),
{
    let n: usize = topics.len();
    let ghost keys = topics.key_seq();
    let ghost all = settings_of(topics@);
    let mut out: TextMap<TopicConfig> = TextMap::new();
    let mut i: usize = 0;
    while i < n
        invariant
            i <= n,
            n == keys.len(),
            keys == topics.key_seq(),
            all == settings_of(topics@),
            forall|k: Seq<char>| #[trigger] topics@.contains_key(k) <==> keys.contains(k),
            forall|k: Seq<char>| #[trigger]
                out@.contains_key(k) <==> keys.take(i as int).contains(k),
            forall|k: Seq<char>| #[trigger]
                out@.contains_key(k) ==> topics@.contains_key(k) && out@[k] == all[k],
        decreases n - i,
    {
        let ghost before = out@;
        proof {
            text::lemma_take_grows(keys, i as int);
            assert(keys.contains(keys[i as int]));
        }
        out.set(
            topics.key_at(i).clone(),
            topics.value_at(i).config(topics.key_at(i).as_str()),
        );
        proof {
            assert forall|k: Seq<char>| #[trigger] out@.contains_key(k) implies topics@.contains_key(
                k,
            ) && out@[k] == all[k] by {
                if k != keys[i as int] {
                    assert(before.contains_key(k));
                }
            }
        }
        i = i + 1;
    }
    proof {
        assert(keys.take(n as int) =~= keys);
        assert(out@ =~= all);
    }
    out
}

// ------------------------------------------------------------------------ laws

/// After a start the settings that can be looked up are those of the catalogue.
pub proof fn law_a_started_store_is_coherent(
    loaded: Database,
    old: db::Rows,
    copied: bool,
    now: Seq<char>,
    after: Database,
)
    requires
        started(loaded, old, copied, now, after),
    ensures
        db::coherent(after),
{
}

proof fn lemma_nothing_copied_in_hand(
    rows: Seq<db::Rows>,
    old: db::Rows,
    n: int,
    s: int,
    i: int,
)
    requires
        rows.len() == MESSAGE_SHARDS,
        0 <= n <= old.len(),
        0 <= s < MESSAGE_SHARDS,
        forall|t: int, k: int|
            0 <= t < rows.len() && 0 <= k < rows[t].len() ==> (#[trigger] rows[t][k]).status
                != MessageStatus::Processing,
        forall|k: int|
            0 <= k < old.len() ==> (#[trigger] old[k]).status != MessageStatus::Processing,
    ensures
        migrated(rows, old, n).len() == rows.len(),
        0 <= i < migrated(rows, old, n)[s].len() ==> migrated(rows, old, n)[s][i].status
            != MessageStatus::Processing,
    decreases n,
{
    if n > 0 {
        lemma_nothing_copied_in_hand(rows, old, n - 1, s, i);
        assert(old[n - 1].status != MessageStatus::Processing);
        shard::law_every_topic_has_a_shard(moved(old[n - 1]).topic);
    }
}

/// Recovery happens before anything else: no message is in the hands of a worker
/// after a start, whether or not old messages were copied.
pub proof fn law_nothing_is_in_hand_after_a_start(
    loaded: Database,
    old: db::Rows,
    copied: bool,
    now: Seq<char>,
    after: Database,
    s: int,
    i: int,
)
    requires
        started(loaded, old, copied, now, after),
        loaded.wf(),
        0 <= s < MESSAGE_SHARDS,
        0 <= i < after.rows()[s].len(),
    ensures
        after.rows()[s][i].status != MessageStatus::Processing,
{
    let waiting = messages::changed(old, messages::in_hand(), messages::to_pending());
    let own = retention::changed_all(loaded.rows(), messages::in_hand(), messages::to_pending());
    assert forall|t: int, k: int| 0 <= t < own.len() && 0 <= k < own[t].len() implies (
    #[trigger] own[t][k]).status != MessageStatus::Processing by {
        assert(own[t] == messages::changed(
            loaded.rows()[t],
            messages::in_hand(),
            messages::to_pending(),
        ));
    }
    if !copied {
        lemma_nothing_copied_in_hand(own, waiting, waiting.len() as int, s, i);
    }
}

proof fn lemma_copied_grow(rows: Seq<db::Rows>, old: db::Rows, m: int, n: int, s: int, k: int)
    requires
        rows.len() == MESSAGE_SHARDS,
        0 <= m <= n,
        0 <= s < MESSAGE_SHARDS,
    ensures
        migrated(rows, old, m).len() == rows.len(),
        migrated(rows, old, n).len() == rows.len(),
        0 <= k < migrated(rows, old, m)[s].len() ==> k < migrated(rows, old, n)[s].len()
            && migrated(rows, old, n)[s][k] == migrated(rows, old, m)[s][k],
    decreases n,
{
    if m < n {
        lemma_copied_grow(rows, old, m, n - 1, s, k);
        shard::law_every_topic_has_a_shard(moved(old[n - 1]).topic);
    } else if n > 0 {
        lemma_copied_grow(rows, old, n - 1, n - 1, s, k);
        shard::law_every_topic_has_a_shard(moved(old[n - 1]).topic);
    }
}

/// A start that copies the old messages loses none: each is in the shard of its
/// topic afterwards, under the identifier that it gets there.
pub proof fn law_every_old_message_is_copied(
    loaded: Database,
    old: db::Rows,
    now: Seq<char>,
    after: Database,
    i: int,
)
    requires
        started(loaded, old, false, now, after),
        loaded.wf(),
        0 <= i < old.len(),
    ensures
        messages::first_place(
            after.rows()[shard::shard_of(old[i].topic)],
            messages::has_id(shard::migrated_id(old[i].topic, old[i].id)),
        ) is Some,
{
    let waiting = messages::changed(old, messages::in_hand(), messages::to_pending());
    let own = retention::changed_all(loaded.rows(), messages::in_hand(), messages::to_pending());
    let m = moved(waiting[i]);
    let s = shard::shard_of(m.topic);
    shard::law_every_topic_has_a_shard(m.topic);
    assert(m.topic == old[i].topic && m.id == shard::migrated_id(old[i].topic, old[i].id));
    assert(arrived(own, waiting, i));
    let here = migrated(own, waiting, i + 1)[s];
    messages::lemma_first_place(here, messages::has_id(m.id));
    let k = messages::first_place(here, messages::has_id(m.id))->0;
    lemma_copied_grow(own, waiting, i + 1, waiting.len() as int, s, k);
    messages::lemma_first_place(after.rows()[s], messages::has_id(m.id));
    assert(messages::has_id(m.id)(after.rows()[s][k]));
}

/// A message that moves says what it said. It gets an identifier that names the
/// shard of its topic, unless its own names one.
pub proof fn law_a_moved_message_says_what_it_said(m: MessageView)
    ensures
        moved(m).topic == m.topic,
        moved(m).payload == m.payload,
        moved(m).attributes == m.attributes,
        moved(m).status == m.status,
        moved(m).attempts == m.attempts,
        moved(m).created_at == m.created_at,
        moved(m).idempotency_key == m.idempotency_key,
        moved(m).delivered_at == m.delivered_at,
        moved(m).last_error == m.last_error,
        shard::shard_of_id(m.id) is Some ==> moved(m).id == m.id,
        shard::shard_of_id(m.id) is None ==> moved(m).id == shard::shard_prefix(
            shard::shard_of(m.topic),
        ) + m.id,
{
}

/// Copying a message adds it to the shard of its topic and to no other. It is
/// left out only where its idempotency key or its identifier is taken.
pub proof fn law_a_copied_message_is_added_once(rows: Seq<db::Rows>, m: MessageView, s: int)
    requires
        rows.len() == MESSAGE_SHARDS,
        0 <= s < MESSAGE_SHARDS,
    ensures
        ({
            let after = copied_into(rows, m);
            let own = rows[shard::shard_of(m.topic)];
            let taken = (m.idempotency_key is Some && db::key_place(rows, m.idempotency_key->0)
                is Some) || (exists|i: int|
                0 <= i < own.len() && ((#[trigger] own[i]).id == m.id || (m.idempotency_key is Some
                    && own[i].idempotency_key == m.idempotency_key)));
            &&& s != shard::shard_of(m.topic) ==> after[s] == rows[s]
            &&& taken ==> after == rows
            &&& !taken ==> after[shard::shard_of(m.topic)].len() == rows[shard::shard_of(
                m.topic,
            )].len() + 1 && after[shard::shard_of(m.topic)].contains(m)
        }),
{
    shard::law_every_topic_has_a_shard(m.topic);
    let t = shard::shard_of(m.topic);
    let own = messages::inserted(rows[t], m);
    if own != rows[t] {
        assert(own[own.len() - 1] == m);
        assert(own.contains(m));
    } else {
        assert(rows.update(t, own) =~= rows);
    }
}

/// The old messages are counted by topic: all as accepted, those that are
/// delivered and those that failed.
pub proof fn law_old_messages_are_counted(old: db::Rows, topic: Seq<char>)
    requires
        old.len() <= i64::MAX,
    ensures
        old_counts(old).contains_key(topic) <==> exists|i: int|
            0 <= i < old.len() && (#[trigger] old[i]).topic == topic,
        ({
            let row = catalog::row_in(old_counts(old), topic);
            &&& row.accepted == number_among(old, |m: MessageView| m.topic == topic)
            &&& row.delivered == number_among(
                old,
                |m: MessageView| m.topic == topic && m.status == MessageStatus::Delivered,
            )
            &&& row.failed == number_among(
                old,
                |m: MessageView| m.topic == topic && m.status == MessageStatus::Failed,
            )
            &&& row.delivery == "broadcast"@
            &&& row.persistence == "ephemeral"@
            &&& !row.configured
        }),
        0 <= number_among(old, |m: MessageView| m.topic == topic) <= old.len(),
        0 <= number_among(
            old,
            |m: MessageView| m.topic == topic && m.status == MessageStatus::Delivered,
        ) <= old.len(),
        0 <= number_among(
            old,
            |m: MessageView| m.topic == topic && m.status == MessageStatus::Failed,
        ) <= old.len(),
    decreases old.len(),
{
    if old.len() > 0 {
        let init = old.drop_last();
        law_old_messages_are_counted(init, topic);
        if exists|i: int| 0 <= i < init.len() && (#[trigger] init[i]).topic == topic {
            let i = choose|i: int| 0 <= i < init.len() && (#[trigger] init[i]).topic == topic;
            assert(old[i] == init[i]);
        }
        if exists|i: int| 0 <= i < old.len() && (#[trigger] old[i]).topic == topic {
            let i = choose|i: int| 0 <= i < old.len() && (#[trigger] old[i]).topic == topic;
            if i < init.len() {
                assert(init[i] == old[i]);
            }
        }
        assert(old[old.len() - 1] == old.last());
    }
}

/// How many messages have a property.
pub open spec fn number_among(rows: db::Rows, p: spec_fn(MessageView) -> bool) -> int
    decreases rows.len(),
{
    if rows.len() == 0 {
        0
    } else {
        number_among(rows.drop_last(), p) + (if p(rows.last()) {
            1int
        } else {
            0int
        })
    }
}

/// A start keeps the numbers and the settings of a known topic, but for one
/// thing: a topic without a wildcard that was persistent without being set so
/// becomes ephemeral. A topic that was never seen counts as seen now. How many
/// messages wait and are held is counted anew.
pub proof fn law_a_start_mends_the_catalogue(
    topics: catalog::Topics,
    old: db::Rows,
    served: Seq<consumers::ConsumerView>,
    depths: db::Depths,
    now: Seq<char>,
    name: Seq<char>,
)
    requires
        topics.contains_key(name),
    ensures
        ({
            let after = topics_started(topics, old, served, depths, now);
            let was = topics[name];
            let row = after[name];
            let wild = name.contains('+') || name.contains('#');
            let stray = !was.configured && was.persistence == "persistent"@ && !wild;
            &&& after.contains_key(name)
            &&& row.accepted == was.accepted && row.duplicates == was.duplicates && row.delivered
                == was.delivered && row.failed == was.failed && row.dropped == was.dropped
            &&& row.delivery == was.delivery
            &&& row.configured == was.configured
            &&& stray ==> row.persistence == "ephemeral"@
            &&& !stray ==> row.persistence == was.persistence
            &&& was.last_seen_at is Some ==> row.last_seen_at == was.last_seen_at
            &&& was.last_seen_at is None ==> row.last_seen_at == Some(now)
            &&& depths.contains_key(name) ==> row.pending == depths[name].pending && row.processing
                == depths[name].processing
            &&& !depths.contains_key(name) ==> row.pending == 0 && row.processing == 0
        }),
{
    let seen = table::mapped(table::mapped(topics, seen_by(now)), demoted());
    let counted = table::merged(seen, old_counts(old), first_wins());
    lemma_served(counted, served, served.len() as int, name);
}

proof fn lemma_served(
    topics: catalog::Topics,
    rows: Seq<consumers::ConsumerView>,
    n: int,
    name: Seq<char>,
)
    requires
        0 <= n <= rows.len(),
    ensures
        topics.contains_key(name) ==> served_topics(topics, rows, n).contains_key(name)
            && served_topics(topics, rows, n)[name] == topics[name],
        served_topics(topics, rows, n).contains_key(name) <==> topics.contains_key(name) || exists|
            i: int,
        |
            0 <= i < n && (#[trigger] rows[i]).topic == name,
        !topics.contains_key(name) && served_topics(topics, rows, n).contains_key(name)
            ==> served_topics(topics, rows, n)[name] == catalog::fresh_topic(),
    decreases n,
{
    if n > 0 {
        lemma_served(topics, rows, n - 1, name);
        assert(rows[n - 1].topic == name ==> served_topics(topics, rows, n).contains_key(name));
    }
}

/// A start finds the topics that are not in the catalogue: those of the old
/// messages, those that consumers ask for, and those with messages that wait or
/// are held. It makes up no other.
pub proof fn law_a_start_finds_every_topic(
    topics: catalog::Topics,
    old: db::Rows,
    served: Seq<consumers::ConsumerView>,
    depths: db::Depths,
    now: Seq<char>,
    name: Seq<char>,
)
    requires
        !topics.contains_key(name),
        old.len() <= i64::MAX,
    ensures
        ({
            let after = topics_started(topics, old, served, depths, now);
            let row = after[name];
            &&& after.contains_key(name) <==> (exists|i: int|
                0 <= i < old.len() && (#[trigger] old[i]).topic == name) || (exists|i: int|
                0 <= i < served.len() && (#[trigger] served[i]).topic == name)
                || depths.contains_key(name)
            &&& after.contains_key(name) ==> {
                &&& row.accepted == number_among(old, |m: MessageView| m.topic == name)
                &&& row.delivery == "broadcast"@
                &&& row.persistence == "ephemeral"@
                &&& !row.configured
                &&& depths.contains_key(name) ==> row.pending == depths[name].pending
                    && row.processing == depths[name].processing
                &&& !depths.contains_key(name) ==> row.pending == 0 && row.processing == 0
            }
        }),
{
    let seen = table::mapped(table::mapped(topics, seen_by(now)), demoted());
    let counted = table::merged(seen, old_counts(old), first_wins());
    law_old_messages_are_counted(old, name);
    lemma_served(counted, served, served.len() as int, name);
    assert(counted.contains_key(name) <==> old_counts(old).contains_key(name));
}

/// Starting keeps what is stored: every message of the store stays where it is,
/// and waits again where a worker held it.
pub proof fn law_a_start_keeps_what_is_stored(
    loaded: Database,
    old: db::Rows,
    copied: bool,
    now: Seq<char>,
    after: Database,
    s: int,
    i: int,
)
    requires
        loaded.wf(),
        started(loaded, old, copied, now, after),
        0 <= s < MESSAGE_SHARDS,
        0 <= i < loaded.rows()[s].len(),
    ensures
        i < after.rows()[s].len(),
        ({
            let was = loaded.rows()[s][i];
            let row = after.rows()[s][i];
            &&& row.id == was.id
            &&& row.topic == was.topic
            &&& row.payload == was.payload
            &&& row.attributes == was.attributes
            &&& row.attempts == was.attempts
            &&& row.idempotency_key == was.idempotency_key
            &&& was.status != MessageStatus::Processing ==> row == was
            &&& was.status == MessageStatus::Processing ==> row.status == MessageStatus::Pending
                && row.lease is None
        }),
        after.consumers@ == loaded.consumers@,
        copied ==> after.rows()[s].len() == loaded.rows()[s].len(),
{
    let waiting = messages::changed(old, messages::in_hand(), messages::to_pending());
    let own = retention::changed_all(loaded.rows(), messages::in_hand(), messages::to_pending());
    assert(own[s] == messages::changed(
        loaded.rows()[s],
        messages::in_hand(),
        messages::to_pending(),
    ));
    if !copied {
        assert(migrated(own, waiting, 0) == own);
        lemma_copied_grow(own, waiting, 0, waiting.len() as int, s, i);
    }
}

/// A start is refused for the first old message that could not be copied, and
/// never where the messages were copied before.
pub proof fn law_a_start_is_refused_for_a_lost_message(
    loaded: Database,
    old: db::Rows,
    copied: bool,
    id: Seq<char>,
)
    requires
        start_refused(loaded, old, copied, id),
    ensures
        !copied,
        exists|i: int|
            0 <= i < old.len() && id == shard::migrated_id(
                (#[trigger] old[i]).topic,
                old[i].id,
            ),
{
    let waiting = messages::changed(old, messages::in_hand(), messages::to_pending());
    let own = retention::changed_all(loaded.rows(), messages::in_hand(), messages::to_pending());
    let i = choose|i: int|
        0 <= i < waiting.len() && !(#[trigger] arrived(own, waiting, i)) && id == moved(
            waiting[i],
        ).id;
    assert(waiting[i].topic == old[i].topic && waiting[i].id == old[i].id);
}

} // verus!
