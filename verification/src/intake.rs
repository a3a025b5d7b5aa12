//! Accepting messages into the store.
use vstd::prelude::*;
use vstd::string::*;

use crate::catalog;
use crate::catalog::TopicStatsDelta;
use crate::clock;
use crate::clock::UtcTime;
use crate::db;
use crate::db::Database;
use crate::json;
use crate::json::Attributes;
use crate::messages;
use crate::messages::{InputView, StoreFault};
use crate::shard;
use crate::shard::MESSAGE_SHARDS;
use crate::text;

verus! {

/// A message to be stored.
pub struct EnqueueInput {
    pub id: String,
    pub idempotency_key: Option<String>,
    pub topic: String,
    pub payload: Vec<u8>,
    pub attributes: Attributes,
}

impl View for EnqueueInput {
    type V = InputView;

    open spec fn view(&self) -> InputView {
        InputView {
            id: self.id@,
            idempotency_key: text::opt_text(self.idempotency_key),
            topic: self.topic@,
            payload: self.payload@,
            attributes: json::object_text(self.attributes@),
        }
    }
}

pub open spec fn input_views(items: Seq<EnqueueInput>) -> Seq<InputView> {
    items.map_values(|i: EnqueueInput| i@)
}

/// Stores a message: its identifier, or that of the message stored before under
/// its idempotency key, whatever its topic; whether it was there before; and the
/// messages afterwards.
pub open spec fn put(rows: Seq<db::Rows>, item: InputView, now: Seq<char>) -> (
    Result<(Seq<char>, bool), StoreFault>,
    Seq<db::Rows>,
) {
    match known_place(rows, item) {
        Some((s, i)) => (Ok((rows[s][i].id, true)), rows),
        None => {
            let s = shard::shard_of(item.topic);
            let (r, own) = messages::stored(rows[s], item, now);
            (r, rows.update(s, own))
        },
    }
}

/// Where the message is that has the idempotency key of `item`, if it has one.
pub open spec fn known_place(rows: Seq<db::Rows>, item: InputView) -> Option<(int, int)> {
    match item.idempotency_key {
        Some(key) => db::key_place(rows, key),
        None => None,
    }
}

/// The messages once shard `s` has stored those of the first `n` of `items` that
/// are its own.
pub open spec fn group_after(
    rows: Seq<db::Rows>,
    items: Seq<InputView>,
    times: Seq<Seq<char>>,
    s: int,
    n: int,
) -> Seq<db::Rows>
    decreases n,
{
    if n <= 0 {
        rows
    } else {
        let init = group_after(rows, items, times, s, n - 1);
        if shard::shard_of(items[n - 1].topic) == s {
            put(init, items[n - 1], times[n - 1]).1
        } else {
            init
        }
    }
}

/// What becomes of the `i`-th of `items` in shard `s`, behind those before it.
pub open spec fn group_outcome(
    rows: Seq<db::Rows>,
    items: Seq<InputView>,
    times: Seq<Seq<char>>,
    s: int,
    i: int,
) -> Result<(Seq<char>, bool), StoreFault> {
    put(group_after(rows, items, times, s, i), items[i], times[i]).0
}

/// Why shard `s` cannot take its own of the first `n` of `items`, if it cannot.
pub open spec fn fault_in(
    rows: Seq<db::Rows>,
    items: Seq<InputView>,
    times: Seq<Seq<char>>,
    s: int,
    n: int,
) -> Option<StoreFault>
    decreases n,
{
    if n <= 0 {
        None
    } else {
        match fault_in(rows, items, times, s, n - 1) {
            Some(fault) => Some(fault),
            None => if shard::shard_of(items[n - 1].topic) == s {
                match group_outcome(rows, items, times, s, n - 1) {
                    Err(fault) => Some(fault),
                    Ok(_) => None,
                }
            } else {
                None
            },
        }
    }
}

/// The messages once the first `n` shards have taken theirs, one shard after the
/// other.
pub open spec fn shards_after(
    rows: Seq<db::Rows>,
    items: Seq<InputView>,
    times: Seq<Seq<char>>,
    n: int,
) -> Seq<db::Rows>
    decreases n,
{
    if n <= 0 {
        rows
    } else {
        group_after(
            shards_after(rows, items, times, n - 1),
            items,
            times,
            n - 1,
            items.len() as int,
        )
    }
}

/// What becomes of the `i`-th of `items`: the shards before its own have taken
/// theirs, and its own shard those before it.
pub open spec fn outcome(
    rows: Seq<db::Rows>,
    items: Seq<InputView>,
    times: Seq<Seq<char>>,
    i: int,
) -> Result<(Seq<char>, bool), StoreFault> {
    let s = shard::shard_of(items[i].topic);
    group_outcome(shards_after(rows, items, times, s), items, times, s, i)
}

/// The first of the first `n` shards that cannot take its messages.
pub open spec fn faulty_shard(
    rows: Seq<db::Rows>,
    items: Seq<InputView>,
    times: Seq<Seq<char>>,
    n: int,
) -> Option<int>
    decreases n,
{
    if n <= 0 {
        None
    } else {
        match faulty_shard(rows, items, times, n - 1) {
            Some(s) => Some(s),
            None => if fault_in(
                shards_after(rows, items, times, n - 1),
                items,
                times,
                n - 1,
                items.len() as int,
            ) is Some {
                Some(n - 1)
            } else {
                None
            },
        }
    }
}

/// The counts with one accepted or repeated message.
pub open spec fn intake_counted(
    t: db::Tally,
    topic: Seq<char>,
    duplicate: bool,
    minute: Seq<char>,
) -> db::Tally {
    let accepted = db::one_if(!duplicate);
    db::Tally {
        depths: catalog::depth_bumped(t.depths, topic, accepted, 0),
        stats: db::stats_noted(
            t.stats,
            topic,
            TopicStatsDelta { accepted, duplicates: db::one_if(duplicate), delivered: 0 },
        ),
        trends: db::trend_noted(t.trends, minute, accepted, 0),
        ..t
    }
}

/// The counts after the first `n` of `items` with their results.
pub open spec fn all_counted(
    t: db::Tally,
    items: Seq<InputView>,
    results: Seq<(Seq<char>, bool)>,
    minute: Seq<char>,
    n: int,
) -> db::Tally
    decreases n,
{
    if n <= 0 {
        t
    } else {
        intake_counted(
            all_counted(t, items, results, minute, n - 1),
            items[n - 1].topic,
            results[n - 1].1,
            minute,
        )
    }
}

pub open spec fn result_views(results: Seq<(String, bool)>) -> Seq<(Seq<char>, bool)> {
    results.map_values(|r: (String, bool)| (r.0@, r.1))
}

/// The texts of `n` times.
pub open spec fn times_told(times: Seq<Seq<char>>, n: nat) -> bool {
    &&& times.len() == n
    &&& forall|i: int| 0 <= i < n ==> clock::is_time_text(#[trigger] times[i])
}

/// Every shard stores its messages or none of them; shard after shard, up to
/// the first that fails. Counts are kept if all succeed.
pub open spec fn batch_stored(
    before: Database,
    after: Database,
    items: Seq<InputView>,
    times: Seq<Seq<char>>,
    minute: Seq<char>,
    r: Result<Vec<(String, bool)>, StoreFault>,
) -> bool {
    let rows = before.rows();
    match faulty_shard(rows, items, times, 16) {
        Some(s) => {
            let so_far = shards_after(rows, items, times, s);
            &&& r matches Err(fault) && fault_in(
                so_far,
                items,
                times,
                s,
                items.len() as int,
            ) == Some(fault)
            &&& after.rows() == so_far
            &&& after == (Database { shards: after.shards, ..before })
            &&& after.wf()
        },
        None => {
            &&& r matches Ok(list)
            &&& list@.len() == items.len()
            &&& forall|i: int|
                0 <= i < items.len() ==> outcome(rows, items, times, i) == Ok::<
                    (Seq<char>, bool),
                    StoreFault,
                >(#[trigger] result_views(list@)[i])
            &&& db::tally(after) == (db::Tally {
                shards: shards_after(rows, items, times, 16),
                ..all_counted(
                    db::tally(before),
                    items,
                    result_views(list@),
                    minute,
                    items.len() as int,
                )
            })
            &&& db::tally_only(before, after)
        },
    }
}

proof fn lemma_fault_stays(
    rows: Seq<db::Rows>,
    items: Seq<InputView>,
    times: Seq<Seq<char>>,
    s: int,
    n: int,
    m: int,
)
    requires
        n <= m,
        fault_in(rows, items, times, s, n) is Some,
    ensures
        fault_in(rows, items, times, s, m) == fault_in(rows, items, times, s, n),
    decreases m,
{
    if n < m {
        lemma_fault_stays(rows, items, times, s, n, m - 1);
    }
}

proof fn lemma_faulty_shard_stays(
    rows: Seq<db::Rows>,
    items: Seq<InputView>,
    times: Seq<Seq<char>>,
    n: int,
    m: int,
)
    requires
        n <= m,
        faulty_shard(rows, items, times, n) is Some,
    ensures
        faulty_shard(rows, items, times, m) == faulty_shard(rows, items, times, n),
    decreases m,
{
    if n < m {
        lemma_faulty_shard_stays(rows, items, times, n, m - 1);
    }
}

/// Storing only adds a message behind those of its shard.
pub proof fn lemma_put_grows(rows: Seq<db::Rows>, item: InputView, now: Seq<char>)
    requires
        rows.len() == MESSAGE_SHARDS,
    ensures
        put(rows, item, now).1.len() == rows.len(),
        forall|s: int|
            0 <= s < rows.len() && s != shard::shard_of(item.topic) ==> #[trigger] put(
                rows,
                item,
                now,
            ).1[s] == rows[s],
        forall|s: int|
            0 <= s < rows.len() ==> rows[s].len() <= (#[trigger] put(rows, item, now).1[s]).len()
                && put(rows, item, now).1[s].take(rows[s].len() as int) == rows[s],
        put(rows, item, now).0 is Err ==> put(rows, item, now).1 == rows,
{
    shard::law_every_topic_has_a_shard(item.topic);
    let at = shard::shard_of(item.topic);
    let after = put(rows, item, now).1;
    messages::lemma_stored_grows(rows[at], item, now);
    assert forall|s: int| 0 <= s < rows.len() implies rows[s].len() <= (
    #[trigger] after[s]).len() && after[s].take(rows[s].len() as int) == rows[s] by {
        assert(rows[s].take(rows[s].len() as int) =~= rows[s]);
    }
    if put(rows, item, now).0 is Err {
        reveal(messages::stored);
        assert(after =~= rows);
    }
}

/// A shard that takes its messages only adds them behind those that are there,
/// and leaves the other shards alone.
pub proof fn lemma_group_grows(
    rows: Seq<db::Rows>,
    items: Seq<InputView>,
    times: Seq<Seq<char>>,
    s: int,
    m: int,
    n: int,
)
    requires
        rows.len() == MESSAGE_SHARDS,
        0 <= m <= n,
    ensures
        ({
            let mid = group_after(rows, items, times, s, m);
            let after = group_after(rows, items, times, s, n);
            &&& mid.len() == rows.len()
            &&& after.len() == rows.len()
            &&& forall|k: int| 0 <= k < rows.len() && k != s ==> #[trigger] after[k] == rows[k]
            &&& forall|k: int|
                0 <= k < rows.len() ==> mid[k].len() <= (#[trigger] after[k]).len()
                    && after[k].take(mid[k].len() as int) == mid[k]
        }),
    decreases n,
{
    let mid = group_after(rows, items, times, s, m);
    let after = group_after(rows, items, times, s, n);
    if m < n {
        lemma_group_grows(rows, items, times, s, m, n - 1);
        let init = group_after(rows, items, times, s, n - 1);
        if shard::shard_of(items[n - 1].topic) == s {
            lemma_put_grows(init, items[n - 1], times[n - 1]);
            assert forall|k: int| 0 <= k < rows.len() implies mid[k].len() <= (
            #[trigger] after[k]).len() && after[k].take(mid[k].len() as int) == mid[k] by {
                assert(init[k].len() <= after[k].len());
                assert(after[k].take(mid[k].len() as int) =~= after[k].take(
                    init[k].len() as int,
                ).take(mid[k].len() as int));
            }
        }
    } else {
        if n > 0 {
            lemma_group_grows(rows, items, times, s, n - 1, n - 1);
            let init = group_after(rows, items, times, s, n - 1);
            if shard::shard_of(items[n - 1].topic) == s {
                lemma_put_grows(init, items[n - 1], times[n - 1]);
            }
        }
        assert forall|k: int| 0 <= k < rows.len() implies mid[k].len() <= (
        #[trigger] after[k]).len() && after[k].take(mid[k].len() as int) == mid[k] by {
            assert(after[k].take(mid[k].len() as int) =~= mid[k]);
        }
    }
}

/// The shards only add messages behind those that are there.
pub proof fn lemma_shards_grow(
    rows: Seq<db::Rows>,
    items: Seq<InputView>,
    times: Seq<Seq<char>>,
    m: int,
    n: int,
)
    requires
        rows.len() == MESSAGE_SHARDS,
        0 <= m <= n,
    ensures
        ({
            let mid = shards_after(rows, items, times, m);
            let after = shards_after(rows, items, times, n);
            &&& mid.len() == rows.len()
            &&& after.len() == rows.len()
            &&& forall|k: int|
                0 <= k < rows.len() ==> mid[k].len() <= (#[trigger] after[k]).len()
                    && after[k].take(mid[k].len() as int) == mid[k]
        }),
    decreases n,
{
    let mid = shards_after(rows, items, times, m);
    let after = shards_after(rows, items, times, n);
    let len = items.len() as int;
    if m < n {
        lemma_shards_grow(rows, items, times, m, n - 1);
        let init = shards_after(rows, items, times, n - 1);
        lemma_group_grows(init, items, times, n - 1, 0, len);
        assert forall|k: int| 0 <= k < rows.len() implies mid[k].len() <= (
        #[trigger] after[k]).len() && after[k].take(mid[k].len() as int) == mid[k] by {
            assert(init[k].len() <= after[k].len());
            assert(after[k].take(mid[k].len() as int) =~= after[k].take(
                init[k].len() as int,
            ).take(mid[k].len() as int));
        }
    } else {
        if n > 0 {
            lemma_shards_grow(rows, items, times, n - 1, n - 1);
            lemma_group_grows(shards_after(rows, items, times, n - 1), items, times, n - 1, 0, len);
        }
        assert forall|k: int| 0 <= k < rows.len() implies mid[k].len() <= (
        #[trigger] after[k]).len() && after[k].take(mid[k].len() as int) == mid[k] by {
            assert(after[k].take(mid[k].len() as int) =~= mid[k]);
        }
    }
}

impl Database {
    /// Stores a message that waits for its first attempt.
    fn put(
        &mut self,
        id: String,
        idempotency_key: Option<String>,
        topic: String,
        payload: Vec<u8>,
        attributes: String,
        now: &str,
    ) -> (r: Result<(String, bool), StoreFault>)
        requires
            old(self).wf(),
        ensures
            final(self).wf(),
            *final(self) == (Database { shards: final(self).shards, ..*old(self) }),
            ({
                let item = InputView {
                    id: id@,
                    idempotency_key: text::opt_text(idempotency_key),
                    topic: topic@,
                    payload: payload@,
                    attributes: attributes@,
                };
                let (found, after) = put(old(self).rows(), item, now@);
                &&& final(self).rows() == after
                &&& match r {
                    Ok(got) => found == Ok::<(Seq<char>, bool), StoreFault>((got.0@, got.1)),
                    Err(fault) => found == Err::<(Seq<char>, bool), StoreFault>(fault),
                }
            }),
    {
        let ghost before = *self;
        let ghost item = InputView {
            id: id@,
            idempotency_key: text::opt_text(idempotency_key),
            topic: topic@,
            payload: payload@,
            attributes: attributes@,
        };
        match &idempotency_key {
            Some(key) => match self.find_key(key.as_str()) {
                Some((s, i)) => {
                    proof {
                        assert(before.rows()[s as int] == before.shards@[s as int]@);
                    }
                    return Ok((self.shards[s].row(i).id.clone(), true));
                },
                None => {},
            },
            None => {},
        }
        let s: usize = shard::topic_shard(topic.as_str());
        proof {
            assert(before.rows()[s as int] == before.shards@[s as int]@);
        }
        let r: Result<(String, bool), StoreFault> = self.shards[s].store(
            id,
            idempotency_key,
            topic,
            payload,
            attributes,
            now,
        );
        proof {
            assert(self.rows() =~= before.rows().update(
                s as int,
                messages::stored(before.rows()[s as int], item, now@).1,
            ));
        }
        r
    }

    /// Lets shard `s` store its messages, or none of them.
    fn store_group(
        &mut self,
        s: usize,
        items: &Vec<EnqueueInput>,
        times: &Vec<String>,
        attributes: &Vec<String>,
        results: &mut Vec<(String, bool)>,
    ) -> (r: Result<(), StoreFault>)
        requires
            old(self).wf(),
            s < MESSAGE_SHARDS,
            times@.len() == items@.len(),
            attributes@.len() == items@.len(),
            old(results)@.len() == items@.len(),
            forall|i: int|
                0 <= i < items@.len() ==> (#[trigger] attributes@[i])@ == json::object_text(
                    items@[i].attributes@,
                ),
        ensures
            final(self).wf(),
            *final(self) == (Database { shards: final(self).shards, ..*old(self) }),
            final(results)@.len() == items@.len(),
            ({
                let rows = old(self).rows();
                let views = input_views(items@);
                let at = text::texts(times@);
                let n = items@.len() as int;
                match r {
                    Err(fault) => {
                        &&& fault_in(rows, views, at, s as int, n) == Some(fault)
                        &&& final(self).rows() == rows
                    },
                    Ok(_) => {
                        &&& fault_in(rows, views, at, s as int, n) is None
                        &&& final(self).rows() == group_after(rows, views, at, s as int, n)
                        &&& forall|i: int|
                            0 <= i < n ==> if shard::shard_of(views[i].topic) == s as int {
                                group_outcome(rows, views, at, s as int, i) == Ok::<
                                    (Seq<char>, bool),
                                    StoreFault,
                                >(#[trigger] result_views(final(results)@)[i])
                            } else {
                                result_views(final(results)@)[i] == result_views(
                                    old(results)@,
                                )[i]
                            }
                    },
                }
            }),
    {
        let ghost before = *self;
        let ghost rows = before.rows();
        let ghost views = input_views(items@);
        let ghost at = text::texts(times@);
        let ghost first = result_views(results@);
        proof {
            assert(rows[s as int] == before.shards@[s as int]@);
        }
        let mark: usize = self.shards[s].len();
        let mut i: usize = 0;
        while i < items.len()
            invariant
                i <= items@.len(),
                self.wf(),
                before.wf(),
                before == *old(self),
                s < MESSAGE_SHARDS,
                times@.len() == items@.len(),
                attributes@.len() == items@.len(),
                results@.len() == items@.len(),
                rows == before.rows(),
                views == input_views(items@),
                at == text::texts(times@),
                mark == rows[s as int].len(),
                rows.len() == MESSAGE_SHARDS,
                forall|k: int|
                    0 <= k < items@.len() ==> (#[trigger] attributes@[k])@ == json::object_text(
                        items@[k].attributes@,
                    ),
                *self == (Database { shards: self.shards, ..before }),
                self.rows() == group_after(rows, views, at, s as int, i as int),
                fault_in(rows, views, at, s as int, i as int) is None,
                first.len() == items@.len(),
                forall|k: int|
                    0 <= k < items@.len() ==> if k < i && shard::shard_of(views[k].topic)
                        == s as int {
                        group_outcome(rows, views, at, s as int, k) == Ok::<
                            (Seq<char>, bool),
                            StoreFault,
                        >(#[trigger] result_views(results@)[k])
                    } else {
                        result_views(results@)[k] == first[k]
                    },
            decreases items.len() - i,
        {
            proof {
                assert(views[i as int] == items@[i as int]@);
                assert(at[i as int] == times@[i as int]@);
            }
            if shard::topic_shard(items[i].topic.as_str()) == s {
                let payload: Vec<u8> = items[i].payload.clone();
                proof {
                    assert(payload@ =~= items@[i as int].payload@);
                }
                let key: Option<String> = match &items[i].idempotency_key {
                    Some(k) => Some(k.clone()),
                    None => None,
                };
                let stored: Result<(String, bool), StoreFault> = self.put(
                    items[i].id.clone(),
                    key,
                    items[i].topic.clone(),
                    payload,
                    attributes[i].clone(),
                    times[i].as_str(),
                );
                proof {
                    assert(self.rows() == group_after(rows, views, at, s as int, i + 1));
                }
                match stored {
                    Err(fault) => {
                        proof {
                            lemma_group_grows(rows, views, at, s as int, 0, i + 1);
                            lemma_fault_stays(
                                rows,
                                views,
                                at,
                                s as int,
                                i + 1,
                                items@.len() as int,
                            );
                            assert(self.rows()[s as int] == self.shards@[s as int]@);
                        }
                        let ghost grown = self.rows();
                        self.shards[s].truncate(mark);
                        proof {
                            assert(self.rows() =~= grown.update(
                                s as int,
                                grown[s as int].take(mark as int),
                            ));
                            assert(self.rows() =~= rows);
                        }
                        return Err(fault);
                    },
                    Ok(found) => {
                        let ghost so_far = result_views(results@);
                        let ghost value = (found.0@, found.1);
                        results.set(i, found);
                        proof {
                            assert(result_views(results@) =~= so_far.update(i as int, value));
                        }
                    },
                }
            }
            i = i + 1;
        }
        Ok(())
    }

    /// Counts a message that was accepted, or that was there before.
    fn count_intake(&mut self, topic: &str, duplicate: bool, minute: &str)
        ensures
            db::tally(*final(self)) == intake_counted(
                db::tally(*old(self)),
                topic@,
                duplicate,
                minute@,
            ),
            *final(self) == (Database {
                depths: final(self).depths,
                stats: final(self).stats,
                trend_deltas: final(self).trend_deltas,
                ..*old(self)
            }),
    {
        let accepted: i64 = if duplicate {
            0
        } else {
            1
        };
        let repeated: i64 = if duplicate {
            1
        } else {
            0
        };
        self.record_topic_stats(
            topic,
            TopicStatsDelta { accepted, duplicates: repeated, delivered: 0 },
            minute,
        );
        self.bump_queue_depth(topic, accepted, 0);
    }

    /// Stores messages, each at its time. Gives for each the identifier under
    /// which it is stored and whether it was there before.
    pub fn enqueue_batch_at(
        &mut self,
        items: &Vec<EnqueueInput>,
        times: &Vec<String>,
        minute: &str,
    ) -> (r: Result<Vec<(String, bool)>, StoreFault>)
        requires
            old(self).wf(),
            times@.len() == items@.len(),
        ensures
            batch_stored(
                *old(self),
                *final(self),
                input_views(items@),
                text::texts(times@),
                minute@,
                r,
            ),
    {
        let ghost before = *self;
        let ghost rows = before.rows();
        let ghost views = input_views(items@);
        let ghost at = text::texts(times@);
        let mut attributes: Vec<String> = Vec::new();
        let mut results: Vec<(String, bool)> = Vec::new();
        let mut i: usize = 0;
        while i < items.len()
            invariant
                i <= items@.len(),
                attributes@.len() == i,
                results@.len() == i,
                forall|k: int|
                    0 <= k < i ==> (#[trigger] attributes@[k])@ == json::object_text(
                        items@[k].attributes@,
                    ),
            decreases items.len() - i,
        {
            attributes.push(json::attributes_text(&items[i].attributes));
            results.push((String::new(), false));
            i = i + 1;
        }
        let mut s: usize = 0;
        proof {
            assert forall|k: int| 0 <= k < items@.len() implies 0 <= shard::shard_of(
                (#[trigger] views[k]).topic,
            ) < 16 by {
                shard::law_every_topic_has_a_shard(views[k].topic);
            }
        }
        while s < MESSAGE_SHARDS
            invariant
                s <= MESSAGE_SHARDS,
                self.wf(),
                before.wf(),
                before == *old(self),
                forall|k: int|
                    0 <= k < items@.len() ==> 0 <= shard::shard_of((#[trigger] views[k]).topic)
                        < 16,
                times@.len() == items@.len(),
                attributes@.len() == items@.len(),
                results@.len() == items@.len(),
                rows == before.rows(),
                rows.len() == MESSAGE_SHARDS,
                views == input_views(items@),
                at == text::texts(times@),
                forall|k: int|
                    0 <= k < items@.len() ==> (#[trigger] attributes@[k])@ == json::object_text(
                        items@[k].attributes@,
                    ),
                *self == (Database { shards: self.shards, ..before }),
                self.rows() == shards_after(rows, views, at, s as int),
                faulty_shard(rows, views, at, s as int) is None,
                forall|k: int|
                    0 <= k < items@.len() && shard::shard_of(views[k].topic) < s ==> outcome(
                        rows,
                        views,
                        at,
                        k,
                    ) == Ok::<(Seq<char>, bool), StoreFault>(
                        #[trigger] result_views(results@)[k],
                    ),
            decreases MESSAGE_SHARDS - s,
        {
            let ghost so_far = result_views(results@);
            match self.store_group(s, items, times, &attributes, &mut results) {
                Err(fault) => {
                    proof {
                        assert(faulty_shard(rows, views, at, s + 1) == Some(s as int));
                        lemma_faulty_shard_stays(rows, views, at, s + 1, 16);
                    }
                    return Err(fault);
                },
                Ok(_) => {},
            }
            proof {
                assert(self.rows() == shards_after(rows, views, at, s + 1));
                assert forall|k: int|
                    0 <= k < items@.len() && shard::shard_of(views[k].topic) < s + 1 implies outcome(
                    rows,
                    views,
                    at,
                    k,
                ) == Ok::<(Seq<char>, bool), StoreFault>(
                    #[trigger] result_views(results@)[k],
                ) by {
                    if shard::shard_of(views[k].topic) != s as int {
                        assert(so_far[k] == result_views(results@)[k]);
                    }
                }
            }
            s = s + 1;
        }
        let ghost stored = *self;
        let ghost list = result_views(results@);
        proof {
            assert forall|k: int| 0 <= k < items@.len() implies outcome(rows, views, at, k) == Ok::<
                (Seq<char>, bool),
                StoreFault,
            >(#[trigger] list[k]) by {
                assert(0 <= shard::shard_of(views[k].topic) < 16);
            }
        }
        let mut n: usize = 0;
        while n < items.len()
            invariant
                n <= items@.len(),
                self.wf(),
                results@.len() == items@.len(),
                views == input_views(items@),
                list == result_views(results@),
                stored.rows() == shards_after(rows, views, at, 16),
                db::tally(*self) == (db::Tally {
                    shards: stored.rows(),
                    ..all_counted(db::tally(before), views, list, minute@, n as int)
                }),
                stored == (Database { shards: stored.shards, ..before }),
                *self == (Database {
                    shards: stored.shards,
                    depths: self.depths,
                    stats: self.stats,
                    trend_deltas: self.trend_deltas,
                    ..before
                }),
            decreases items.len() - n,
        {
            proof {
                assert(views[n as int].topic == items@[n as int].topic@);
                assert(list[n as int].1 == results@[n as int].1);
            }
            self.count_intake(items[n].topic.as_str(), results[n].1, minute);
            n = n + 1;
        }
        Ok(results)
    }

    /// Stores messages now, in the order in which they are given.
    pub fn enqueue_batch(&mut self, items: Vec<EnqueueInput>) -> (r: Result<
        Vec<(String, bool)>,
        StoreFault,
    >)
        requires
            old(self).wf(),
        ensures
            exists|times: Seq<Seq<char>>, now: UtcTime|
                times_told(times, items@.len()) && now.valid() && #[trigger] batch_stored(
                    *old(self),
                    *final(self),
                    input_views(items@),
                    times,
                    clock::minute_text(now),
                    r,
                ),
    {
        let mut times: Vec<String> = Vec::new();
        let mut i: usize = 0;
        while i < items.len()
            invariant
                i <= items@.len(),
                times_told(text::texts(times@), i as nat),
            decreases items.len() - i,
        {
            let ghost before = text::texts(times@);
            let at: UtcTime = clock::now();
            times.push(clock::text_of(at));
            proof {
                assert(text::texts(times@) =~= before.push(clock::time_text(at)));
            }
            i = i + 1;
        }
        let now: UtcTime = clock::now();
        let minute: String = clock::minute(now);
        let r: Result<Vec<(String, bool)>, StoreFault> = self.enqueue_batch_at(
            &items,
            &times,
            minute.as_str(),
        );
        proof {
            assert(batch_stored(
                *old(self),
                *self,
                input_views(items@),
                text::texts(times@),
                clock::minute_text(now),
                r,
            ));
        }
        r
    }
}

// ---------------------------------------------------------- single messages

/// An idempotency key that is empty is none.
pub open spec fn usable_key(key: Option<Seq<char>>) -> Option<Seq<char>> {
    match key {
        Some(k) => if k.len() > 0 {
            Some(k)
        } else {
            None
        },
        None => None,
    }
}

/// One message was stored or found.
pub open spec fn one_stored(
    before: Database,
    after: Database,
    item: InputView,
    now: UtcTime,
    r: Result<(String, bool), StoreFault>,
) -> bool {
    let (found, rows) = put(before.rows(), item, clock::time_text(now));
    &&& clock::faithful(now)
    &&& match r {
        Err(fault) => {
            &&& found == Err::<(Seq<char>, bool), StoreFault>(fault)
            &&& after.rows() == before.rows()
            &&& after == (Database { shards: after.shards, ..before })
            &&& after.wf()
        },
        Ok(got) => {
            &&& found == Ok::<(Seq<char>, bool), StoreFault>((got.0@, got.1))
            &&& db::tally(after) == intake_counted(
                db::Tally { shards: rows, ..db::tally(before) },
                item.topic,
                got.1,
                clock::minute_text(now),
            )
            &&& db::tally_only(before, after)
        },
    }
}

/// A message went to live subscribers only, or to nobody.
pub open spec fn live_only(
    before: Database,
    after: Database,
    topic: Seq<char>,
    delivered: i64,
    dropped: i64,
    now: UtcTime,
) -> bool {
    let bumped = catalog::topic_bumped(
        before.topics@,
        topic,
        1,
        0,
        delivered,
        0,
        clock::time_text(now),
    );
    &&& after.topics@ == (if dropped > 0 {
        catalog::dropped_bumped(bumped, topic, dropped, clock::time_text(now))
    } else {
        bumped
    })
    &&& after.trend_deltas@ == db::trend_noted(
        before.trend_deltas@,
        clock::minute_text(now),
        1,
        delivered,
    )
    &&& after == (Database { topics: after.topics, trend_deltas: after.trend_deltas, ..before })
}

impl Database {
    /// Stores one message under the identifier `id`, at the time `now`.
    pub fn enqueue_at(
        &mut self,
        id: String,
        idempotency_key: Option<&str>,
        topic: &str,
        payload: &Vec<u8>,
        attributes: &Attributes,
        now: UtcTime,
    ) -> (r: Result<(String, bool), StoreFault>)
        requires
            old(self).wf(),
            now.valid(),
        ensures
            one_stored(
                *old(self),
                *final(self),
                (InputView {
                    id: id@,
                    idempotency_key: usable_key(text::opt_str(idempotency_key)),
                    topic: topic@,
                    payload: payload@,
                    attributes: json::object_text(attributes@),
                }),
                now,
                r,
            ),
    {
        let ghost before = *self;
        let at: String = clock::text_of(now);
        let minute: String = clock::minute(now);
        let key: Option<String> = match idempotency_key {
            Some(k) => if k.unicode_len() > 0 {
                Some(k.to_string())
            } else {
                None
            },
            None => None,
        };
        let ghost item = InputView {
            id: id@,
            idempotency_key: text::opt_text(key),
            topic: topic@,
            payload: payload@,
            attributes: json::object_text(attributes@),
        };
        let body: Vec<u8> = payload.clone();
        proof {
            assert(body@ =~= payload@);
            lemma_put_grows(before.rows(), item, at@);
        }
        let stored: Result<(String, bool), StoreFault> = self.put(
            id,
            key,
            topic.to_string(),
            body,
            json::attributes_text(attributes),
            at.as_str(),
        );
        match stored {
            Err(fault) => Err(fault),
            Ok(found) => {
                self.count_intake(topic, found.1, minute.as_str());
                Ok(found)
            },
        }
    }

    /// Stores one message now, under a fresh identifier of its topic's shard.
    pub fn enqueue(
        &mut self,
        idempotency_key: Option<&str>,
        topic: &str,
        payload: &Vec<u8>,
        attributes: &Attributes,
    ) -> (r: Result<(String, bool), StoreFault>)
        requires
            old(self).wf(),
        ensures
            exists|now: UtcTime, id: Seq<char>|
                now.valid() && shard::is_fresh_id(id, topic@) && #[trigger] one_stored(
                    *old(self),
                    *final(self),
                    (InputView {
                        id,
                        idempotency_key: usable_key(text::opt_str(idempotency_key)),
                        topic: topic@,
                        payload: payload@,
                        attributes: json::object_text(attributes@),
                    }),
                    now,
                    r,
                ),
    {
        let now: UtcTime = clock::now();
        let id: String = shard::new_message_id(topic);
        let ghost name = id@;
        let r: Result<(String, bool), StoreFault> = self.enqueue_at(
            id,
            idempotency_key,
            topic,
            payload,
            attributes,
            now,
        );
        proof {
            assert(one_stored(
                *old(self),
                *self,
                (InputView {
                    id: name,
                    idempotency_key: usable_key(text::opt_str(idempotency_key)),
                    topic: topic@,
                    payload: payload@,
                    attributes: json::object_text(attributes@),
                }),
                now,
                r,
            ));
        }
        r
    }

    /// Counts a message that nobody takes.
    pub fn accept_dropped_at(&mut self, topic: &str, now: UtcTime)
        requires
            now.valid(),
        ensures
            live_only(*old(self), *final(self), topic@, 0, 1, now),
    {
        let at: String = clock::text_of(now);
        self.bump_topic_stat(topic, 1, 0, 0, 0, now);
        catalog::bump_dropped_count(&mut self.topics, topic, 1, at.as_str());
    }

    /// Counts a message that nobody takes; gives it an identifier.
    pub fn accept_dropped(&mut self, topic: &str) -> (r: String)
        ensures
            shard::is_uuid_text(r@),
            exists|now: UtcTime|
                now.valid() && #[trigger] live_only(*old(self), *final(self), topic@, 0, 1, now),
    {
        let id: String = shard::random_id();
        self.accept_dropped_at(topic, clock::now());
        id
    }

    /// Counts a message that went to live subscribers only.
    pub fn record_live_fanout_at(&mut self, topic: &str, now: UtcTime)
        requires
            now.valid(),
        ensures
            live_only(*old(self), *final(self), topic@, 1, 0, now),
    {
        self.bump_topic_stat(topic, 1, 0, 1, 0, now);
    }

    /// Counts a message that went to live subscribers only, now.
    pub fn record_live_fanout(&mut self, topic: &str)
        ensures
            exists|now: UtcTime|
                now.valid() && #[trigger] live_only(*old(self), *final(self), topic@, 1, 0, now),
    {
        self.record_live_fanout_at(topic, clock::now());
    }
}

// -------------------------------------------------------------------- laws

/// A message under an identifier that is not taken is always stored or found.
pub proof fn law_a_free_identifier_never_fails(
    rows: Seq<db::Rows>,
    item: InputView,
    now: Seq<char>,
)
    requires
        forall|i: int|
            0 <= i < rows[shard::shard_of(item.topic)].len() ==> (
            #[trigger] rows[shard::shard_of(item.topic)][i]).id != item.id,
    ensures
        put(rows, item, now).0 is Ok,
{
    reveal(messages::stored);
    let own = rows[shard::shard_of(item.topic)];
    let m = messages::fresh_row(item, now);
    if messages::clashes(own, m) {
        let i = choose|i: int| 0 <= i < own.len() && messages::clash(#[trigger] own[i], m);
        let key = item.idempotency_key->0;
        messages::lemma_first_place(own, messages::has_key(key));
        assert(messages::has_key(key)(own[i]));
    }
}

/// A message that was not there before waits for a worker with the payload and
/// the topic that it was given, and is ready at once.
pub proof fn law_an_accepted_message_is_ready(
    rows: Seq<db::Rows>,
    item: InputView,
    now: Seq<char>,
)
    requires
        rows.len() == MESSAGE_SHARDS,
        put(rows, item, now).0 matches Ok(got) && !got.1,
    ensures
        ({
            let s = shard::shard_of(item.topic);
            let after = put(rows, item, now).1[s];
            &&& put(rows, item, now).0->Ok_0.0 == item.id
            &&& after.len() == rows[s].len() + 1
            &&& after.last().id == item.id
            &&& after.last().topic == item.topic
            &&& after.last().payload == item.payload
            &&& messages::ready(after.last(), now)
        }),
{
    reveal(messages::stored);
    shard::law_every_topic_has_a_shard(item.topic);
    text::lemma_text_less_order(now, now, now);
}

/// Whether a message with the identifier is stored.
pub open spec fn is_stored(rows: Seq<db::Rows>, id: Seq<char>) -> bool {
    exists|s: int, k: int|
        0 <= s < rows.len() && 0 <= k < rows[s].len() && (#[trigger] rows[s][k]).id == id
}

proof fn lemma_put_is_there(rows: Seq<db::Rows>, item: InputView, now: Seq<char>)
    requires
        rows.len() == MESSAGE_SHARDS,
        put(rows, item, now).0 is Ok,
    ensures
        is_stored(put(rows, item, now).1, put(rows, item, now).0->Ok_0.0),
{
    let after = put(rows, item, now).1;
    let id = put(rows, item, now).0->Ok_0.0;
    match known_place(rows, item) {
        Some((s, i)) => {
            db::lemma_key_place(rows, item.idempotency_key->0);
            assert(after[s][i].id == id);
        },
        None => {
            let s = shard::shard_of(item.topic);
            shard::law_every_topic_has_a_shard(item.topic);
            let k = messages::lemma_stored_is_there(rows[s], item, now);
            assert(after[s][k].id == id);
        },
    }
}

/// A publisher is given an identifier only when its message is stored under it:
/// whatever the batch, each message that is answered is there afterwards.
pub proof fn law_an_answered_message_is_stored(
    before: Database,
    after: Database,
    items: Seq<InputView>,
    times: Seq<Seq<char>>,
    minute: Seq<char>,
    list: Vec<(String, bool)>,
    i: int,
)
    requires
        before.wf(),
        batch_stored(before, after, items, times, minute, Ok(list)),
        0 <= i < items.len(),
    ensures
        is_stored(after.rows(), list@[i].0@),
{
    let s = shard::shard_of(items[i].topic);
    shard::law_every_topic_has_a_shard(items[i].topic);
    let rows = before.rows();
    let n = items.len() as int;
    let start = shards_after(rows, items, times, s);
    let init = group_after(start, items, times, s, i);
    let mid = group_after(start, items, times, s, i + 1);
    let id = result_views(list@)[i].0;
    assert(outcome(rows, items, times, i) == Ok::<(Seq<char>, bool), StoreFault>(
        result_views(list@)[i],
    ));
    lemma_shards_grow(rows, items, times, s, s);
    lemma_group_grows(start, items, times, s, i, i);
    lemma_put_is_there(init, items[i], times[i]);
    lemma_group_grows(start, items, times, s, i + 1, n);
    lemma_shards_grow(rows, items, times, s + 1, 16);
    assert(db::tally(after).shards == after.rows());
    let (t, k) = choose|t: int, k: int|
        0 <= t < mid.len() && 0 <= k < mid[t].len() && (#[trigger] mid[t][k]).id == id;
    let grown = shards_after(rows, items, times, s + 1);
    assert(grown[t].take(mid[t].len() as int)[k] == mid[t][k]);
    assert(after.rows()[t].take(grown[t].len() as int)[k] == grown[t][k]);
    assert(after.rows()[t][k].id == id);
}

// --------------------------------------------------------- idempotency keys

/// A row with another key does not change where a key is.
proof fn lemma_key_elsewhere(
    rows: Seq<db::Rows>,
    s: int,
    m: messages::MessageView,
    key: Seq<char>,
    n: int,
)
    requires
        0 <= s < rows.len(),
        n <= rows.len(),
        m.idempotency_key != Some(key),
    ensures
        db::key_holder(rows.update(s, rows[s].push(m)), key, n) == db::key_holder(rows, key, n),
        messages::first_place(rows[s].push(m), messages::has_key(key)) == messages::first_place(
            rows[s],
            messages::has_key(key),
        ),
    decreases n,
{
    assert(rows[s].push(m).drop_last() =~= rows[s]);
    if n > 0 {
        lemma_key_elsewhere(rows, s, m, key, n - 1);
    }
}

/// Storing a message does not move the keys that are there.
proof fn lemma_put_keeps_keys(
    rows: Seq<db::Rows>,
    item: InputView,
    now: Seq<char>,
    key: Seq<char>,
)
    requires
        rows.len() == MESSAGE_SHARDS,
        db::key_place(rows, key) is Some,
    ensures
        db::key_place(put(rows, item, now).1, key) == db::key_place(rows, key),
        ({
            let at = db::key_place(rows, key)->0;
            put(rows, item, now).1[at.0][at.1].id == rows[at.0][at.1].id
        }),
{
    reveal(messages::stored);
    shard::law_every_topic_has_a_shard(item.topic);
    db::lemma_key_place(rows, key);
    let s = shard::shard_of(item.topic);
    let m = messages::fresh_row(item, now);
    let after = put(rows, item, now).1;
    if known_place(rows, item) is None {
        if messages::clashes(rows[s], m) {
            assert(after =~= rows);
        } else {
            lemma_key_elsewhere(rows, s, m, key, rows.len() as int);
        }
    }
}

/// A stored message is found under its key.
proof fn lemma_put_is_found(rows: Seq<db::Rows>, item: InputView, now: Seq<char>)
    requires
        rows.len() == MESSAGE_SHARDS,
        item.idempotency_key is Some,
        put(rows, item, now).0 is Ok,
    ensures
        ({
            let after = put(rows, item, now).1;
            db::key_place(after, item.idempotency_key->0) matches Some((s, i)) && after[s][i].id
                == put(rows, item, now).0->Ok_0.0
        }),
{
    reveal(messages::stored);
    shard::law_every_topic_has_a_shard(item.topic);
    let key = item.idempotency_key->0;
    let s = shard::shard_of(item.topic);
    let m = messages::fresh_row(item, now);
    let after = put(rows, item, now).1;
    db::lemma_key_place(rows, key);
    if known_place(rows, item) is None {
        messages::lemma_first_place(rows[s], messages::has_key(key));
        assert(messages::first_place(rows[s], messages::has_key(key)) is None);
        assert(after[s] == rows[s].push(m));
        db::lemma_key_place(after, key);
        assert(after[s][rows[s].len() as int].idempotency_key == Some(key));
        let at = db::key_place(after, key)->0;
        if at.0 != s || at.1 != rows[s].len() {
            assert(after[at.0][at.1] == rows[at.0][at.1]);
        }
    }
}

/// A message under an idempotency key that is stored is not stored again,
/// whatever its topic: the publisher is told the message that is there, and
/// nothing is added or changed.
pub proof fn law_a_stored_key_is_found(
    before: Database,
    after: Database,
    item: InputView,
    now: UtcTime,
    r: Result<(String, bool), StoreFault>,
    s: int,
    i: int,
)
    requires
        item.idempotency_key matches Some(key) && db::key_place(before.rows(), key) == Some((s, i)),
        one_stored(before, after, item, now, r),
    ensures
        r matches Ok(found) && found.0@ == before.rows()[s][i].id && found.1,
        after.rows() == before.rows(),
{
    assert(db::tally(after).shards == after.rows());
}

/// Two messages under one idempotency key, whatever their topics, are one
/// message: the second is answered with the first, and nothing is added.
pub proof fn law_a_key_is_stored_once(
    before: Database,
    mid: Database,
    after: Database,
    first: InputView,
    now: UtcTime,
    got: (String, bool),
    second: InputView,
    later: UtcTime,
    r: Result<(String, bool), StoreFault>,
)
    requires
        before.wf(),
        first.idempotency_key is Some,
        second.idempotency_key == first.idempotency_key,
        one_stored(before, mid, first, now, Ok(got)),
        one_stored(mid, after, second, later, r),
    ensures
        r matches Ok(found) && found.0@ == got.0@ && found.1,
        after.rows() == mid.rows(),
{
    lemma_put_is_found(before.rows(), first, clock::time_text(now));
    assert(db::tally(mid).shards == mid.rows());
    let at = db::key_place(mid.rows(), first.idempotency_key->0)->0;
    law_a_stored_key_is_found(mid, after, second, later, r, at.0, at.1);
}

proof fn lemma_group_keeps_keys(
    rows: Seq<db::Rows>,
    items: Seq<InputView>,
    times: Seq<Seq<char>>,
    s: int,
    m: int,
    n: int,
    key: Seq<char>,
)
    requires
        rows.len() == MESSAGE_SHARDS,
        0 <= m <= n,
        db::key_place(group_after(rows, items, times, s, m), key) is Some,
    ensures
        ({
            let mid = group_after(rows, items, times, s, m);
            let after = group_after(rows, items, times, s, n);
            let at = db::key_place(mid, key)->0;
            db::key_place(after, key) == Some(at) && after[at.0][at.1].id == mid[at.0][at.1].id
        }),
    decreases n,
{
    if m < n {
        lemma_group_keeps_keys(rows, items, times, s, m, n - 1, key);
        lemma_group_grows(rows, items, times, s, 0, n - 1);
        if shard::shard_of(items[n - 1].topic) == s {
            lemma_put_keeps_keys(
                group_after(rows, items, times, s, n - 1),
                items[n - 1],
                times[n - 1],
                key,
            );
        }
    }
}

proof fn lemma_shards_keep_keys(
    rows: Seq<db::Rows>,
    items: Seq<InputView>,
    times: Seq<Seq<char>>,
    m: int,
    n: int,
    key: Seq<char>,
)
    requires
        rows.len() == MESSAGE_SHARDS,
        0 <= m <= n,
        db::key_place(shards_after(rows, items, times, m), key) is Some,
    ensures
        ({
            let mid = shards_after(rows, items, times, m);
            let after = shards_after(rows, items, times, n);
            let at = db::key_place(mid, key)->0;
            db::key_place(after, key) == Some(at) && after[at.0][at.1].id == mid[at.0][at.1].id
        }),
    decreases n,
{
    if m < n {
        lemma_shards_keep_keys(rows, items, times, m, n - 1, key);
        lemma_shards_grow(rows, items, times, 0, n - 1);
        lemma_group_keeps_keys(
            shards_after(rows, items, times, n - 1),
            items,
            times,
            n - 1,
            0,
            items.len() as int,
            key,
        );
    }
}

/// Whatever the batch, a message with an idempotency key is answered with the
/// one message that is stored under the key afterwards, and that is the one
/// stored under it before, if there was one. So messages of a batch with one key
/// are answered alike, whatever their topics.
pub proof fn law_a_batch_stores_a_key_once(
    before: Database,
    after: Database,
    items: Seq<InputView>,
    times: Seq<Seq<char>>,
    minute: Seq<char>,
    list: Vec<(String, bool)>,
    i: int,
    key: Seq<char>,
)
    requires
        before.wf(),
        batch_stored(before, after, items, times, minute, Ok(list)),
        0 <= i < items.len(),
        items[i].idempotency_key == Some(key),
    ensures
        db::key_place(after.rows(), key) matches Some((s, k)) && after.rows()[s][k].id
            == list@[i].0@,
        db::key_place(before.rows(), key) matches Some((s, k)) ==> list@[i].1
            && before.rows()[s][k].id == list@[i].0@,
{
    let rows = before.rows();
    let s = shard::shard_of(items[i].topic);
    shard::law_every_topic_has_a_shard(items[i].topic);
    let n = items.len() as int;
    let start = shards_after(rows, items, times, s);
    let init = group_after(start, items, times, s, i);
    assert(outcome(rows, items, times, i) == Ok::<(Seq<char>, bool), StoreFault>(
        result_views(list@)[i],
    ));
    assert(db::tally(after).shards == after.rows());
    lemma_shards_grow(rows, items, times, 0, s);
    lemma_group_grows(start, items, times, s, 0, i);
    lemma_put_is_found(init, items[i], times[i]);
    lemma_group_keeps_keys(start, items, times, s, i + 1, n, key);
    lemma_shards_keep_keys(rows, items, times, s + 1, 16, key);
    if db::key_place(rows, key) is Some {
        lemma_shards_keep_keys(rows, items, times, 0, s, key);
        lemma_group_keeps_keys(start, items, times, s, 0, i, key);
    }
}

/// A batch is counted message by message: each counts as accepted or as a
/// duplicate of its topic, as it was found to be, and in the minute that runs.
/// The numbers of other topics stay.
pub proof fn law_a_batch_is_counted_message_by_message(
    t: db::Tally,
    items: Seq<InputView>,
    results: Seq<(Seq<char>, bool)>,
    minute: Seq<char>,
    n: int,
    other: Seq<char>,
)
    requires
        0 <= n < items.len(),
        items.len() == results.len(),
        other != items[n].topic,
    ensures
        all_counted(t, items, results, minute, 0) == t,
        ({
            let before = all_counted(t, items, results, minute, n);
            let after = all_counted(t, items, results, minute, n + 1);
            let topic = items[n].topic;
            let old = db::stats_in(before.stats, topic);
            let new = db::stats_in(after.stats, topic);
            let fresh: i64 = if results[n].1 {
                0
            } else {
                1
            };
            let again: i64 = if results[n].1 {
                1
            } else {
                0
            };
            &&& new.accepted == catalog::sum(old.accepted, fresh)
            &&& new.duplicates == catalog::sum(old.duplicates, again)
            &&& new.delivered == old.delivered
            &&& db::stats_in(after.stats, other) == db::stats_in(before.stats, other)
            &&& db::trend_in(after.trends, minute).accepted == catalog::sum(
                db::trend_in(before.trends, minute).accepted,
                fresh,
            )
            &&& db::trend_in(after.trends, minute).delivered == db::trend_in(
                before.trends,
                minute,
            ).delivered
            &&& catalog::depth_in(after.depths, other) == catalog::depth_in(before.depths, other)
        }),
{
}

/// A batch that fails counts nothing.
pub proof fn law_a_failed_batch_counts_nothing(
    before: Database,
    after: Database,
    items: Seq<InputView>,
    times: Seq<Seq<char>>,
    minute: Seq<char>,
    fault: StoreFault,
)
    requires
        batch_stored(before, after, items, times, minute, Err(fault)),
    ensures
        after.stats@ == before.stats@,
        after.depths@ == before.depths@,
        after.trend_deltas@ == before.trend_deltas@,
        after.topics@ == before.topics@,
{
}

/// A message is stored in the shard of its topic and in no other.
pub proof fn law_a_message_is_put_in_its_shard(
    rows: Seq<db::Rows>,
    item: InputView,
    now: Seq<char>,
    s: int,
)
    requires
        rows.len() == MESSAGE_SHARDS,
        0 <= s < MESSAGE_SHARDS,
        s != shard::shard_of(item.topic),
    ensures
        put(rows, item, now).1[s] == rows[s],
        put(rows, item, now).0 matches Ok(answer) ==> {
            &&& answer.1 ==> put(rows, item, now).1 == rows
            &&& !answer.1 ==> answer.0 == item.id
        },
{
    shard::law_every_topic_has_a_shard(item.topic);
    let t = shard::shard_of(item.topic);
    reveal(messages::stored);
    assert(rows.update(t, rows[t]) =~= rows);
}

} // verus!
