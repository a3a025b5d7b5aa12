//! Looking at stored messages, newest first.
use vstd::prelude::*;
use vstd::string::*;

use crate::bookkeeping;
use crate::db;
use crate::db::Database;
use crate::json;
use crate::messages;
use crate::messages::{MessageRow, MessageTable, MessageView};
use crate::queue;
use crate::ranking;
use crate::ranking::Stamp;
use crate::shard;
use crate::shard::MESSAGE_SHARDS;
use crate::text;
use crate::topic;

verus! {

/// A stored message as it is shown. The attributes are JSON text.
#[derive(Debug)]
pub struct StoredMessage {
    pub id: String,
    pub topic: String,
    pub payload: Vec<u8>,
    pub attributes: String,
    pub status: String,
    pub attempts: i64,
    pub created_at: String,
    pub delivered_at: Option<String>,
    pub last_error: Option<String>,
}

#[verifier::ext_equal]
pub struct StoredView {
    pub id: Seq<char>,
    pub topic: Seq<char>,
    pub payload: Seq<u8>,
    pub attributes: Seq<char>,
    pub status: Seq<char>,
    pub attempts: i64,
    pub created_at: Seq<char>,
    pub delivered_at: Option<Seq<char>>,
    pub last_error: Option<Seq<char>>,
}

impl View for StoredMessage {
    type V = StoredView;

    open spec fn view(&self) -> StoredView {
        StoredView {
            id: self.id@,
            topic: self.topic@,
            payload: self.payload@,
            attributes: self.attributes@,
            status: self.status@,
            attempts: self.attempts,
            created_at: self.created_at@,
            delivered_at: text::opt_text(self.delivered_at),
            last_error: text::opt_text(self.last_error),
        }
    }
}

/// One message of a list, the place at which it stands and the length of the
/// list.
#[derive(Debug)]
pub struct TopicMessagePage {
    pub offset: i64,
    pub total: i64,
    pub message: Option<StoredMessage>,
}

/// The row as it is shown. Attributes that are not JSON are shown as none.
pub open spec fn shown(m: MessageView) -> StoredView {
    StoredView {
        id: m.id,
        topic: m.topic,
        payload: m.payload,
        attributes: if json::json_of(m.attributes) is Invalid {
            "{}"@
        } else {
            m.attributes
        },
        status: m.status.name(),
        attempts: m.attempts,
        created_at: m.created_at,
        delivered_at: m.delivered_at,
        last_error: m.last_error,
    }
}

/// The row as it is shown.
pub fn show(row: &MessageRow) -> (r: StoredMessage)
    ensures
        r@ == shown(row@),
{
    let attributes: String = match json::parse_json(row.attributes.as_str()) {
        json::Json::Invalid => "{}".to_string(),
        _ => row.attributes.clone(),
    };
    let payload: Vec<u8> = row.payload.clone();
    proof {
        assert(payload@ =~= row.payload@);
    }
    StoredMessage {
        id: row.id.clone(),
        topic: row.topic.clone(),
        payload,
        attributes,
        status: row.status.as_str().to_string(),
        attempts: row.attempts,
        created_at: row.created_at.clone(),
        delivered_at: match &row.delivered_at {
            Some(at) => Some(at.clone()),
            None => None,
        },
        last_error: match &row.last_error {
            Some(error) => Some(error.clone()),
            None => None,
        },
    }
}

/// The stamps of the messages that a filter names, in one shard.
pub open spec fn picked_stamps(rows: db::Rows, filter: Seq<char>) -> Seq<(Seq<char>, Seq<char>)>
    decreases rows.len(),
{
    if rows.len() == 0 {
        Seq::empty()
    } else {
        let init = picked_stamps(rows.drop_last(), filter);
        if messages::picks(filter, rows.last().topic) {
            init.push((rows.last().created_at, rows.last().id))
        } else {
            init
        }
    }
}

/// The stamps of the messages that a filter names, in several shards.
pub open spec fn all_stamps(rows: Seq<db::Rows>, filter: Seq<char>) -> Seq<(Seq<char>, Seq<char>)>
    decreases rows.len(),
{
    if rows.len() == 0 {
        Seq::empty()
    } else {
        all_stamps(rows.drop_last(), filter) + picked_stamps(rows.last(), filter)
    }
}

/// The stamps of the messages that a filter names: with a wildcard in every
/// shard, else in the shard of the topic.
pub open spec fn candidates(rows: Seq<db::Rows>, filter: Seq<char>) -> Seq<(Seq<char>, Seq<char>)> {
    if topic::wild(filter) {
        all_stamps(rows, filter)
    } else {
        picked_stamps(rows[shard::shard_of(filter)], filter)
    }
}

/// The place that is shown: the one asked for, or the last one.
pub open spec fn shown_place(offset: i64, n: int) -> int {
    let wanted = if offset < 0 {
        0
    } else {
        offset as int
    };
    if n > 0 && wanted >= n {
        n - 1
    } else {
        wanted
    }
}

/// The identifier at a place of the list, newest first.
pub open spec fn id_at(list: Seq<(Seq<char>, Seq<char>)>, place: int) -> Option<Seq<char>> {
    if 0 <= place < list.len() {
        Some(ranking::newest_first(list)[place].1)
    } else {
        None
    }
}

/// The message with an identifier, looked for in the shard of the identifier.
pub open spec fn message_by_id(rows: Seq<db::Rows>, id: Seq<char>) -> Option<MessageView> {
    match db::home(rows, id) {
        None => None,
        Some(s) => match messages::first_place(rows[s], messages::has_id(id)) {
            None => None,
            Some(i) => Some(rows[s][i]),
        },
    }
}

/// The message at a place of the list.
pub open spec fn page_message(
    rows: Seq<db::Rows>,
    filter: Seq<char>,
    place: int,
) -> Option<StoredView> {
    match id_at(candidates(rows, filter), place) {
        None => None,
        Some(id) => match message_by_id(rows, id) {
            None => None,
            Some(m) => Some(shown(m)),
        },
    }
}

fn push_stamps(table: &MessageTable, filter: &str, out: &mut Vec<Stamp>)
    ensures
        ranking::stamps(final(out)@) == ranking::stamps(old(out)@) + picked_stamps(
            table@,
            filter@,
        ),
{
    let n: usize = table.len();
    let ghost rows = table@;
    let ghost base = ranking::stamps(out@);
    let mut i: usize = 0;
    proof {
        assert(rows.take(0) =~= Seq::empty());
        assert(base + picked_stamps(rows.take(0), filter@) =~= base);
    }
    while i < n
        invariant
            i <= n,
            n == rows.len(),
            rows == table@,
            ranking::stamps(out@) == base + picked_stamps(rows.take(i as int), filter@),
        decreases n - i,
    {
        proof {
            assert(rows.take(i + 1).drop_last() =~= rows.take(i as int));
            assert(rows.take(i + 1).last() == rows[i as int]);
        }
        let row: &MessageRow = table.row(i);
        if messages::topic_is_picked(filter, row.topic.as_str()) {
            let ghost so_far = ranking::stamps(out@);
            out.push(Stamp { created_at: row.created_at.clone(), id: row.id.clone() });
            proof {
                let mark = (rows[i as int].created_at, rows[i as int].id);
                assert(ranking::stamps(out@) =~= so_far.push(mark));
                assert(so_far.push(mark) =~= base + picked_stamps(
                    rows.take(i as int),
                    filter@,
                ).push(mark));
            }
        }
        i = i + 1;
    }
    proof {
        assert(rows.take(n as int) =~= rows);
    }
}

impl Database {
    fn stamps_for(&self, filter: &str) -> (r: Vec<Stamp>)
        requires
            self.wf(),
        ensures
            ranking::stamps(r@) == candidates(self.rows(), filter@),
    {
        let mut out: Vec<Stamp> = Vec::new();
        proof {
            assert(ranking::stamps(out@) =~= Seq::empty());
        }
        if !topic::is_wildcard_filter(filter) {
            let s: usize = shard::topic_shard(filter);
            push_stamps(&self.shards[s], filter, &mut out);
            proof {
                assert(self.rows()[s as int] == self.shards@[s as int]@);
                assert(ranking::stamps(out@) =~= picked_stamps(self.rows()[s as int], filter@));
            }
            return out;
        }
        let ghost all = self.rows();
        let mut s: usize = 0;
        proof {
            assert(all.take(0) =~= Seq::empty());
        }
        while s < MESSAGE_SHARDS
            invariant
                s <= MESSAGE_SHARDS,
                self.wf(),
                all == self.rows(),
                ranking::stamps(out@) == all_stamps(all.take(s as int), filter@),
            decreases MESSAGE_SHARDS - s,
        {
            proof {
                assert(all.take(s + 1).drop_last() =~= all.take(s as int));
                assert(all.take(s + 1).last() == self.shards@[s as int]@);
            }
            push_stamps(&self.shards[s], filter, &mut out);
            s = s + 1;
        }
        proof {
            assert(all.take(16) =~= all);
        }
        out
    }

    /// The message with an identifier, looked for in the shard of the identifier.
    pub fn find_message(&self, id: &str) -> (r: Option<&MessageRow>)
        requires
            self.wf(),
        ensures
            match r {
                Some(row) => message_by_id(self.rows(), id@) == Some(row@),
                None => message_by_id(self.rows(), id@) is None,
            },
    {
        match self.shard_index_for_id(id) {
            None => None,
            Some(s) => {
                proof {
                    assert(self.rows()[s as int] == self.shards@[s as int]@);
                }
                match self.shards[s].find_id(id) {
                    None => None,
                    Some(i) => Some(self.shards[s].row(i)),
                }
            },
        }
    }

    /// The message at place `offset` among those that a filter names, newest
    /// first. Behind the end the last one is shown.
    pub fn topic_message_page(&self, filter: &str, offset: i64) -> (r: TopicMessagePage)
        requires
            self.wf(),
        ensures
            ({
                let n = candidates(self.rows(), filter@).len();
                let place = shown_place(offset, n as int);
                &&& r.total == queue::counter(n as int)
                &&& r.offset == queue::counter(place)
                &&& match r.message {
                    Some(m) => page_message(self.rows(), filter@, place) == Some(m@),
                    None => page_message(self.rows(), filter@, place) is None,
                }
            }),
    {
        let stamps: Vec<Stamp> = self.stamps_for(filter);
        let ghost list = candidates(self.rows(), filter@);
        let n: usize = stamps.len();
        let total: i64 = queue::to_counter(n);
        let wanted: u64 = if offset < 0 {
            0
        } else {
            offset as u64
        };
        if n == 0 {
            return TopicMessagePage {
                offset: if offset < 0 {
                    0
                } else {
                    offset
                },
                total,
                message: None,
            };
        }
        let place: usize = if wanted >= n as u64 {
            n - 1
        } else {
            wanted as usize
        };
        let ordered: Vec<Stamp> = ranking::order_by_age(stamps);
        proof {
            ranking::law_newest_first(list);
            assert(ranking::stamps(ordered@)[place as int] == ordered@[place as int]@);
            assert(place == shown_place(offset, n as int));
        }
        let shown_at: i64 = queue::to_counter(place);
        match self.find_message(ordered[place].id.as_str()) {
            None => TopicMessagePage { offset: shown_at, total, message: None },
            Some(row) => TopicMessagePage { offset: shown_at, total, message: Some(show(row)) },
        }
    }
}

/// The stamps of the messages of one shard that have an idempotency key.
pub open spec fn keyed_stamps(rows: db::Rows) -> Seq<(Seq<char>, Seq<char>)>
    decreases rows.len(),
{
    if rows.len() == 0 {
        Seq::empty()
    } else {
        let init = keyed_stamps(rows.drop_last());
        if rows.last().idempotency_key matches Some(key) && key.len() > 0 {
            init.push((rows.last().created_at, rows.last().id))
        } else {
            init
        }
    }
}

/// How many keys of a shard are recalled.
pub open spec fn recalled(rows: db::Rows, limit: usize) -> int {
    let n = keyed_stamps(rows).len() as int;
    if n < limit {
        n
    } else {
        limit as int
    }
}

/// The identifier of the `i`-th recalled message of a shard: the newest ones, the
/// newest last.
pub open spec fn recalled_id(rows: db::Rows, limit: usize, i: int) -> Seq<char> {
    ranking::newest_first(keyed_stamps(rows))[recalled(rows, limit) - 1 - i].1
}

/// The idempotency key of the message with an identifier.
pub open spec fn key_of(rows: db::Rows, id: Seq<char>) -> Seq<char> {
    match messages::first_place(rows, messages::has_id(id)) {
        Some(i) => match rows[i].idempotency_key {
            Some(key) => key,
            None => Seq::empty(),
        },
        None => Seq::empty(),
    }
}

/// The recalled keys of a shard with their identifiers.
pub open spec fn recalled_keys(rows: db::Rows, s: int, limit: usize) -> Seq<
    (int, Seq<char>, Seq<char>),
> {
    Seq::new(
        recalled(rows, limit) as nat,
        |i: int|
            (s, key_of(rows, recalled_id(rows, limit, i)), recalled_id(rows, limit, i)),
    )
}

/// The recalled keys of the first `n` shards.
pub open spec fn all_recalled(rows: Seq<db::Rows>, limit: usize, n: int) -> Seq<
    (int, Seq<char>, Seq<char>),
>
    decreases n,
{
    if n <= 0 {
        Seq::empty()
    } else {
        all_recalled(rows, limit, n - 1) + recalled_keys(rows[n - 1], n - 1, limit)
    }
}

pub open spec fn recall_views(list: Seq<(usize, String, String)>) -> Seq<
    (int, Seq<char>, Seq<char>),
> {
    list.map_values(|e: (usize, String, String)| (e.0 as int, e.1@, e.2@))
}

fn keyed(table: &MessageTable) -> (r: Vec<Stamp>)
    ensures
        ranking::stamps(r@) == keyed_stamps(table@),
{
    let n: usize = table.len();
    let ghost rows = table@;
    let mut out: Vec<Stamp> = Vec::new();
    let mut i: usize = 0;
    proof {
        assert(rows.take(0) =~= Seq::empty());
        assert(ranking::stamps(out@) =~= Seq::empty());
    }
    while i < n
        invariant
            i <= n,
            n == rows.len(),
            rows == table@,
            ranking::stamps(out@) == keyed_stamps(rows.take(i as int)),
        decreases n - i,
    {
        proof {
            assert(rows.take(i + 1).drop_last() =~= rows.take(i as int));
            assert(rows.take(i + 1).last() == rows[i as int]);
        }
        let row: &MessageRow = table.row(i);
        let has: bool = match &row.idempotency_key {
            Some(key) => key.as_str().unicode_len() > 0,
            None => false,
        };
        if has {
            let ghost so_far = ranking::stamps(out@);
            out.push(Stamp { created_at: row.created_at.clone(), id: row.id.clone() });
            proof {
                assert(ranking::stamps(out@) =~= so_far.push(
                    (rows[i as int].created_at, rows[i as int].id),
                ));
            }
        }
        i = i + 1;
    }
    proof {
        assert(rows.take(n as int) =~= rows);
    }
    out
}

fn recent_keys_of(table: &MessageTable, s: usize, limit: usize, out: &mut Vec<(usize, String, String)>)
    ensures
        recall_views(final(out)@) == recall_views(old(out)@) + recalled_keys(
            table@,
            s as int,
            limit,
        ),
{
    let ghost rows = table@;
    let ghost base = recall_views(out@);
    let ghost more = recalled_keys(rows, s as int, limit);
    let stamps: Vec<Stamp> = keyed(table);
    proof {
        ranking::law_newest_first(keyed_stamps(rows));
    }
    let ordered: Vec<Stamp> = ranking::order_by_age(stamps);
    let n: usize = if ordered.len() < limit {
        ordered.len()
    } else {
        limit
    };
    let mut i: usize = 0;
    proof {
        assert(base + more.take(0) =~= base);
    }
    while i < n
        invariant
            i <= n,
            n <= ordered@.len(),
            rows == table@,
            more == recalled_keys(rows, s as int, limit),
            n == more.len(),
            n == recalled(rows, limit),
            ranking::stamps(ordered@) == ranking::newest_first(keyed_stamps(rows)),
            recall_views(out@) == base + more.take(i as int),
        decreases n - i,
    {
        let at: usize = n - 1 - i;
        proof {
            assert(ranking::stamps(ordered@)[at as int] == ordered@[at as int]@);
        }
        let id: String = ordered[at].id.clone();
        let key: String = match table.find_id(id.as_str()) {
            Some(place) => match &table.row(place).idempotency_key {
                Some(key) => key.clone(),
                None => String::new(),
            },
            None => String::new(),
        };
        let ghost so_far = recall_views(out@);
        let ghost found = (s as int, key@, id@);
        out.push((s, key, id));
        proof {
            assert(found == more[i as int]);
            assert(recall_views(out@) =~= so_far.push(found));
            assert(base + more.take(i + 1) =~= (base + more.take(i as int)).push(found));
        }
        i = i + 1;
    }
    proof {
        assert(more.take(n as int) =~= more);
    }
}

impl Database {
    /// The newest idempotency keys of every shard with their identifiers, at most
    /// `limit_per_shard` of each, the oldest first.
    pub fn recent_idempotency_keys(&self, limit_per_shard: usize) -> (r: Vec<
        (usize, String, String),
    >)
        requires
            self.wf(),
        ensures
            recall_views(r@) == all_recalled(self.rows(), limit_per_shard, 16),
    {
        let ghost all = self.rows();
        let mut out: Vec<(usize, String, String)> = Vec::new();
        let mut s: usize = 0;
        proof {
            assert(recall_views(out@) =~= Seq::empty());
        }
        while s < MESSAGE_SHARDS
            invariant
                s <= MESSAGE_SHARDS,
                self.wf(),
                all == self.rows(),
                recall_views(out@) == all_recalled(all, limit_per_shard, s as int),
            decreases MESSAGE_SHARDS - s,
        {
            proof {
                assert(all[s as int] == self.shards@[s as int]@);
            }
            recent_keys_of(&self.shards[s], s, limit_per_shard, &mut out);
            s = s + 1;
        }
        out
    }
}

proof fn lemma_keyed_stamps(rows: db::Rows, j: int) -> (place: int)
    requires
        0 <= j < keyed_stamps(rows).len(),
    ensures
        0 <= place < rows.len(),
        rows[place].id == keyed_stamps(rows)[j].1,
        rows[place].idempotency_key is Some,
    decreases rows.len(),
{
    let init = keyed_stamps(rows.drop_last());
    if j < init.len() {
        lemma_keyed_stamps(rows.drop_last(), j)
    } else {
        rows.len() - 1
    }
}

/// A recalled key with its identifier is that of a message.
pub proof fn lemma_recalled_key(rows: db::Rows, s: int, limit: usize, i: int) -> (place: int)
    requires
        messages::unique(rows),
        0 <= i < recalled_keys(rows, s, limit).len(),
    ensures
        0 <= place < rows.len(),
        rows[place].idempotency_key == Some(recalled_keys(rows, s, limit)[i].1),
        rows[place].id == recalled_keys(rows, s, limit)[i].2,
{
    let stamps = keyed_stamps(rows);
    let sorted = ranking::newest_first(stamps);
    let id = recalled_id(rows, limit, i);
    let at = recalled(rows, limit) - 1 - i;
    ranking::law_newest_first(stamps);
    sorted.to_multiset_ensures();
    stamps.to_multiset_ensures();
    assert(sorted.contains(sorted[at]));
    assert(sorted.to_multiset().count(sorted[at]) > 0);
    assert(stamps.contains(sorted[at]));
    let place = lemma_keyed_stamps(rows, stamps.index_of(sorted[at]));
    messages::lemma_first_place(rows, messages::has_id(id));
    assert(messages::has_id(id)(rows[place]));
    let found = messages::first_place(rows, messages::has_id(id))->0;
    assert(rows[found].id == rows[place].id);
    place
}

// ------------------------------------------------------------------------ laws

/// A message is shown as it is stored, its state in a word. Attributes that are
/// no JSON are shown as none.
pub proof fn law_a_message_is_shown_as_it_is(m: MessageView)
    ensures
        shown(m).id == m.id,
        shown(m).topic == m.topic,
        shown(m).payload == m.payload,
        shown(m).attempts == m.attempts,
        shown(m).created_at == m.created_at,
        shown(m).delivered_at == m.delivered_at,
        shown(m).last_error == m.last_error,
        json::json_of(m.attributes) is Invalid ==> shown(m).attributes == "{}"@,
        !(json::json_of(m.attributes) is Invalid) ==> shown(m).attributes == m.attributes,
        m.status == messages::MessageStatus::Pending ==> shown(m).status == "pending"@,
        m.status == messages::MessageStatus::Processing ==> shown(m).status == "processing"@,
        m.status == messages::MessageStatus::Delivered ==> shown(m).status == "delivered"@,
        m.status == messages::MessageStatus::Failed ==> shown(m).status == "failed"@,
        m.status == messages::MessageStatus::Dropped ==> shown(m).status == "dropped"@,
{
}

/// The place that is shown is the one asked for, the first where less is asked
/// for, and the last where more is.
pub proof fn law_the_place_asked_for_is_shown(offset: i64, n: int)
    requires
        n >= 0,
    ensures
        0 <= offset < n ==> shown_place(offset, n) == offset,
        offset < 0 ==> shown_place(offset, n) == 0,
        n > 0 && offset >= n ==> shown_place(offset, n) == n - 1,
        n == 0 && offset >= 0 ==> shown_place(offset, n) == offset,
{
}

proof fn lemma_picked_stamps(rows: db::Rows, filter: Seq<char>, stamp: (Seq<char>, Seq<char>))
    ensures
        picked_stamps(rows, filter).contains(stamp) <==> exists|i: int|
            0 <= i < rows.len() && messages::picks(filter, (#[trigger] rows[i]).topic) && stamp == (
                rows[i].created_at,
                rows[i].id,
            ),
    decreases rows.len(),
{
    if rows.len() > 0 {
        let init = rows.drop_last();
        let all = picked_stamps(rows, filter);
        let before = picked_stamps(init, filter);
        lemma_picked_stamps(init, filter, stamp);
        if before.contains(stamp) {
            assert(all[before.index_of(stamp)] == stamp);
            let i = choose|i: int|
                0 <= i < init.len() && messages::picks(filter, (#[trigger] init[i]).topic) && stamp
                    == (init[i].created_at, init[i].id);
            assert(rows[i] == init[i]);
        }
        if all.contains(stamp) && !before.contains(stamp) {
            let k = all.index_of(stamp);
            assert(k >= before.len()) by {
                if k < before.len() {
                    assert(before[k] == stamp);
                }
            }
            assert(rows[rows.len() - 1] == rows.last());
        }
        if exists|i: int|
            0 <= i < rows.len() && messages::picks(filter, (#[trigger] rows[i]).topic) && stamp == (
                rows[i].created_at,
                rows[i].id,
            ) {
            let i = choose|i: int|
                0 <= i < rows.len() && messages::picks(filter, (#[trigger] rows[i]).topic) && stamp
                    == (rows[i].created_at, rows[i].id);
            if i < init.len() {
                assert(init[i] == rows[i]);
            } else {
                assert(all[all.len() - 1] == stamp);
            }
        }
    }
}

proof fn lemma_all_stamps(rows: Seq<db::Rows>, filter: Seq<char>, stamp: (Seq<char>, Seq<char>))
    ensures
        all_stamps(rows, filter).contains(stamp) <==> exists|s: int|
            0 <= s < rows.len() && #[trigger] picked_stamps(rows[s], filter).contains(stamp),
    decreases rows.len(),
{
    if rows.len() > 0 {
        let init = rows.drop_last();
        let a = all_stamps(init, filter);
        let b = picked_stamps(rows.last(), filter);
        lemma_all_stamps(init, filter, stamp);
        if a.contains(stamp) {
            assert((a + b)[a.index_of(stamp)] == stamp);
            let s = choose|s: int|
                0 <= s < init.len() && #[trigger] picked_stamps(init[s], filter).contains(stamp);
            assert(picked_stamps(rows[s], filter).contains(stamp));
        }
        if b.contains(stamp) {
            assert((a + b)[a.len() + b.index_of(stamp)] == stamp);
            assert(picked_stamps(rows[rows.len() - 1], filter).contains(stamp));
        }
        if (a + b).contains(stamp) {
            let k = (a + b).index_of(stamp);
            if k < a.len() {
                assert(a[k] == stamp);
            } else {
                assert(b[k - a.len()] == stamp);
            }
        }
        if exists|s: int|
            0 <= s < rows.len() && #[trigger] picked_stamps(rows[s], filter).contains(stamp) {
            let s = choose|s: int|
                0 <= s < rows.len() && #[trigger] picked_stamps(rows[s], filter).contains(stamp);
            if s < init.len() {
                assert(picked_stamps(init[s], filter).contains(stamp));
            }
        }
    }
}

/// A message is among those that a filter names exactly where the filter selects
/// its topic, if it has a wildcard, or is its topic.
pub proof fn law_a_filter_names_its_messages(db: Database, filter: Seq<char>, s: int, i: int)
    requires
        bookkeeping::sound(db),
        0 <= s < db.rows().len(),
        0 <= i < db.rows()[s].len(),
    ensures
        ({
            let m = db.rows()[s][i];
            candidates(db.rows(), filter).contains((m.created_at, m.id)) <==> (if filter.contains(
                '+',
            ) || filter.contains('#') {
                topic::selects(filter, m.topic)
            } else {
                m.topic == filter
            })
        }),
{
    let rows = db.rows();
    let m = rows[s][i];
    let stamp = (m.created_at, m.id);
    assert(bookkeeping::belongs(m, s));
    assert forall|t: int| 0 <= t < rows.len() implies (#[trigger] picked_stamps(
        rows[t],
        filter,
    ).contains(stamp) <==> t == s && messages::picks(filter, m.topic)) by {
        lemma_picked_stamps(rows[t], filter, stamp);
        if picked_stamps(rows[t], filter).contains(stamp) {
            let k = choose|k: int|
                0 <= k < rows[t].len() && messages::picks(filter, (#[trigger] rows[t][k]).topic)
                    && stamp == (rows[t][k].created_at, rows[t][k].id);
            if t < s {
                assert(bookkeeping::apart(rows[t][k], rows[s][i]));
            } else if s < t {
                assert(bookkeeping::apart(rows[s][i], rows[t][k]));
            } else {
                assert(messages::unique(rows[s]));
                assert(rows[s][k].id == rows[s][i].id);
                assert(k == i);
            }
        }
        if t == s && messages::picks(filter, m.topic) {
            assert(messages::picks(filter, rows[t][i].topic));
        }
    }
    shard::law_every_topic_has_a_shard(filter);
    if topic::wild(filter) {
        lemma_all_stamps(rows, filter, stamp);
        if messages::picks(filter, m.topic) {
            assert(picked_stamps(rows[s], filter).contains(stamp));
        }
    }
}

/// Each place shows one of the messages that the filter names, and a place
/// further back never shows a newer one.
pub proof fn law_a_page_shows_the_newest_first(
    db: Database,
    filter: Seq<char>,
    place: int,
    later: int,
)
    requires
        bookkeeping::sound(db),
        0 <= place < later < candidates(db.rows(), filter).len(),
    ensures
        exists|s: int, i: int, t: int, k: int|
            #![trigger db.rows()[s][i], db.rows()[t][k]]
            {
                let a = db.rows()[s][i];
                let b = db.rows()[t][k];
                &&& 0 <= s < db.rows().len() && 0 <= i < db.rows()[s].len()
                &&& 0 <= t < db.rows().len() && 0 <= k < db.rows()[t].len()
                &&& page_message(db.rows(), filter, place) == Some(shown(a))
                &&& page_message(db.rows(), filter, later) == Some(shown(b))
                &&& candidates(db.rows(), filter).contains((a.created_at, a.id))
                &&& candidates(db.rows(), filter).contains((b.created_at, b.id))
                &&& !text::text_less(a.created_at, b.created_at)
            },
{
    let (s, i) = lemma_page_place(db, filter, place);
    let (t, k) = lemma_page_place(db, filter, later);
    let list = candidates(db.rows(), filter);
    ranking::law_the_newest_comes_first(list, place, later);
    let a = db.rows()[s][i];
    let b = db.rows()[t][k];
    assert(page_message(db.rows(), filter, place) == Some(shown(a)));
    assert(page_message(db.rows(), filter, later) == Some(shown(b)));
}

proof fn lemma_page_place(db: Database, filter: Seq<char>, place: int) -> (at: (int, int))
    requires
        bookkeeping::sound(db),
        0 <= place < candidates(db.rows(), filter).len(),
    ensures
        0 <= at.0 < db.rows().len(),
        0 <= at.1 < db.rows()[at.0].len(),
        page_message(db.rows(), filter, place) == Some(shown(db.rows()[at.0][at.1])),
        ranking::newest_first(candidates(db.rows(), filter))[place] == (
            db.rows()[at.0][at.1].created_at,
            db.rows()[at.0][at.1].id,
        ),
        candidates(db.rows(), filter).contains(
            (db.rows()[at.0][at.1].created_at, db.rows()[at.0][at.1].id),
        ),
{
    let rows = db.rows();
    let list = candidates(rows, filter);
    let sorted = ranking::newest_first(list);
    let stamp = sorted[place];
    ranking::law_newest_first(list);
    sorted.to_multiset_ensures();
    list.to_multiset_ensures();
    assert(sorted.contains(stamp));
    assert(sorted.to_multiset().count(stamp) > 0);
    assert(list.contains(stamp));
    shard::law_every_topic_has_a_shard(filter);
    let s = if topic::wild(filter) {
        lemma_all_stamps(rows, filter, stamp);
        choose|s: int|
            0 <= s < rows.len() && #[trigger] picked_stamps(rows[s], filter).contains(stamp)
    } else {
        shard::shard_of(filter)
    };
    lemma_picked_stamps(rows[s], filter, stamp);
    let i = choose|i: int|
        0 <= i < rows[s].len() && messages::picks(filter, (#[trigger] rows[s][i]).topic) && stamp
            == (rows[s][i].created_at, rows[s][i].id);
    bookkeeping::lemma_home(rows, s, i);
    let id = stamp.1;
    messages::lemma_first_place(rows[s], messages::has_id(id));
    assert(messages::has_id(id)(rows[s][i]));
    let found = messages::first_place(rows[s], messages::has_id(id))->0;
    assert(messages::unique(rows[s]));
    assert(rows[s][found].id == rows[s][i].id);
    assert(found == i);
    (s, i)
}

/// A message is found by its identifier, and no other than a stored one is.
pub proof fn law_a_message_is_found_by_its_identifier(db: Database, s: int, i: int, id: Seq<char>)
    requires
        bookkeeping::sound(db),
        0 <= s < db.rows().len(),
        0 <= i < db.rows()[s].len(),
    ensures
        message_by_id(db.rows(), db.rows()[s][i].id) == Some(db.rows()[s][i]),
        message_by_id(db.rows(), id) matches Some(m) ==> m.id == id,
{
    let rows = db.rows();
    bookkeeping::lemma_home(rows, s, i);
    let own = rows[s][i].id;
    messages::lemma_first_place(rows[s], messages::has_id(own));
    assert(messages::has_id(own)(rows[s][i]));
    assert(messages::unique(rows[s]));
    let found = messages::first_place(rows[s], messages::has_id(own))->0;
    assert(rows[s][found].id == own);
    match db::home(rows, id) {
        Some(t) => messages::lemma_first_place(rows[t], messages::has_id(id)),
        None => {},
    }
}

/// As many keys of a shard are recalled as there are, up to the limit.
pub proof fn law_keys_are_recalled_up_to_the_limit(rows: db::Rows, s: int, limit: usize)
    ensures
        recalled_keys(rows, s, limit).len() <= limit,
        recalled_keys(rows, s, limit).len() <= keyed_stamps(rows).len(),
        recalled_keys(rows, s, limit).len() == limit || recalled_keys(rows, s, limit).len()
            == keyed_stamps(rows).len(),
        forall|i: int|
            0 <= i < recalled_keys(rows, s, limit).len() ==> (#[trigger] recalled_keys(
                rows,
                s,
                limit,
            )[i]).0 == s,
{
}

/// Of the keys that are recalled the newest comes last, and every one that is
/// left out is no newer than those.
pub proof fn law_the_newest_keys_are_recalled(rows: db::Rows, limit: usize, i: int, j: int)
    requires
        0 <= i < j < recalled(rows, limit),
    ensures
        ({
            let sorted = ranking::newest_first(keyed_stamps(rows));
            let n = recalled(rows, limit);
            &&& recalled_id(rows, limit, i) == sorted[n - 1 - i].1
            &&& recalled_id(rows, limit, j) == sorted[n - 1 - j].1
            &&& !text::text_less(sorted[n - 1 - j].0, sorted[n - 1 - i].0)
            &&& forall|k: int|
                n <= k < sorted.len() ==> !text::text_less(
                    sorted[n - 1 - i].0,
                    (#[trigger] sorted[k]).0,
                )
        }),
{
    let stamps = keyed_stamps(rows);
    let n = recalled(rows, limit);
    ranking::law_newest_first(stamps);
    ranking::law_the_newest_comes_first(stamps, n - 1 - j, n - 1 - i);
    let sorted = ranking::newest_first(stamps);
    assert forall|k: int| n <= k < sorted.len() implies !text::text_less(
        sorted[n - 1 - i].0,
        (#[trigger] sorted[k]).0,
    ) by {
        ranking::law_the_newest_comes_first(stamps, n - 1 - i, k);
    }
}

/// A message can be recalled by its key where it has one that is not empty.
pub proof fn law_a_message_with_a_key_can_be_recalled(rows: db::Rows, i: int)
    requires
        messages::unique(rows),
        0 <= i < rows.len(),
    ensures
        keyed_stamps(rows).contains((rows[i].created_at, rows[i].id))
            <==> rows[i].idempotency_key is Some && rows[i].idempotency_key->0.len() > 0,
{
    lemma_keyed(rows, (rows[i].created_at, rows[i].id));
    let stamp = (rows[i].created_at, rows[i].id);
    if keyed_stamps(rows).contains(stamp) {
        let k = choose|k: int|
            0 <= k < rows.len() && has_usable_key(#[trigger] rows[k]) && stamp == (
                rows[k].created_at,
                rows[k].id,
            );
        assert(k == i);
    }
    if rows[i].idempotency_key is Some && rows[i].idempotency_key->0.len() > 0 {
        assert(has_usable_key(rows[i]));
    }
}

spec fn has_usable_key(m: MessageView) -> bool {
    m.idempotency_key matches Some(key) && key.len() > 0
}

proof fn lemma_keyed(rows: db::Rows, stamp: (Seq<char>, Seq<char>))
    ensures
        keyed_stamps(rows).contains(stamp) <==> exists|k: int|
            0 <= k < rows.len() && has_usable_key(#[trigger] rows[k]) && stamp == (
                rows[k].created_at,
                rows[k].id,
            ),
    decreases rows.len(),
{
    if rows.len() > 0 {
        let init = rows.drop_last();
        let all = keyed_stamps(rows);
        let before = keyed_stamps(init);
        lemma_keyed(init, stamp);
        if before.contains(stamp) {
            assert(all[before.index_of(stamp)] == stamp);
            let k = choose|k: int|
                0 <= k < init.len() && has_usable_key(#[trigger] init[k]) && stamp == (
                    init[k].created_at,
                    init[k].id,
                );
            assert(rows[k] == init[k]);
        }
        if all.contains(stamp) && !before.contains(stamp) {
            let at = all.index_of(stamp);
            assert(at >= before.len()) by {
                if at < before.len() {
                    assert(before[at] == stamp);
                }
            }
            assert(has_usable_key(rows[rows.len() - 1]));
        }
        if exists|k: int|
            0 <= k < rows.len() && has_usable_key(#[trigger] rows[k]) && stamp == (
                rows[k].created_at,
                rows[k].id,
            ) {
            let k = choose|k: int|
                0 <= k < rows.len() && has_usable_key(#[trigger] rows[k]) && stamp == (
                    rows[k].created_at,
                    rows[k].id,
                );
            if k < init.len() {
                assert(init[k] == rows[k]);
            } else {
                assert(all[all.len() - 1] == stamp);
            }
        }
    }
}

} // verus!
