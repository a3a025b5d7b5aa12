//! What every operation of the store keeps: each message lies in the shard of
//! its topic and is found there by its identifier, and the depths count the
//! messages that wait and those that workers hold.
use vstd::prelude::*;

use crate::catalog;
use crate::clock;
use crate::clock::UtcTime;
use crate::config::Config;
use crate::db;
use crate::db::Database;
use crate::delivery;
use crate::delivery::{Ingested, Intake, Publication};
use crate::intake;
use crate::json;
use crate::messages;
use crate::messages::{InputView, MessageStatus, MessageView, StoreFault, WantView};
use crate::model::{ClaimedMessage, ClaimedView, PersistenceMode};
use crate::paging;
use crate::queue;
use crate::queue::BadAttributes;
use crate::retention;
use crate::shard;
use crate::shard::MESSAGE_SHARDS;
use crate::startup;
use crate::subscribers;
use crate::subscribers::Live;
use crate::subscription;
use crate::subscription::{ActionView, Board, Event, LoopView, PhaseView};
use crate::text;
use crate::topic;
use crate::upkeep;

verus! {

/// Held by a worker, of the given topic.
pub open spec fn held_for(topic: Seq<char>) -> spec_fn(MessageView) -> bool {
    |m: MessageView| m.topic == topic && m.status == MessageStatus::Processing
}

/// The number of messages of every shard fits a counter.
pub open spec fn fits(rows: Seq<db::Rows>) -> bool {
    forall|s: int| 0 <= s < rows.len() ==> (#[trigger] rows[s]).len() <= i64::MAX
}

/// The message belongs to shard `s` by its topic and, if its identifier names a
/// shard, by its identifier.
pub open spec fn belongs(m: MessageView, s: int) -> bool {
    &&& shard::shard_of(m.topic) == s
    &&& shard::shard_of_id(m.id) matches Some(k) ==> k == s
}

/// Every message is in its shard, and no identifier and no idempotency key is in
/// two of them.
pub open spec fn tidy(rows: Seq<db::Rows>) -> bool {
    &&& rows.len() == MESSAGE_SHARDS
    &&& fits(rows)
    &&& forall|s: int| 0 <= s < rows.len() ==> messages::unique(#[trigger] rows[s])
    &&& forall|s: int, i: int|
        0 <= s < rows.len() && 0 <= i < rows[s].len() ==> belongs(#[trigger] rows[s][i], s)
    &&& forall|s: int, i: int, t: int, j: int|
        0 <= s < t < rows.len() && 0 <= i < rows[s].len() && 0 <= j < rows[t].len() ==> apart(
            #[trigger] rows[s][i],
            #[trigger] rows[t][j],
        )
}

/// Neither the identifier nor the idempotency key is the same.
pub open spec fn apart(a: MessageView, b: MessageView) -> bool {
    a.id != b.id && (a.idempotency_key is None || a.idempotency_key != b.idempotency_key)
}

/// The depth of a topic is the number of its messages that wait and the number
/// of those that workers hold.
pub open spec fn depth_counts(rows: Seq<db::Rows>, depths: db::Depths, topic: Seq<char>) -> bool {
    let own = rows[shard::shard_of(topic)];
    let d = catalog::depth_in(depths, topic);
    &&& d.pending == messages::count(own, messages::waiting_for(topic))
    &&& d.processing == messages::count(own, held_for(topic))
}

/// The depths of all topics count their messages.
pub open spec fn counted(rows: Seq<db::Rows>, depths: db::Depths) -> bool {
    forall|t: Seq<char>| #[trigger] depth_counts(rows, depths, t)
}

/// Messages lie where they belong and the depths count them.
pub open spec fn sound(db: Database) -> bool {
    &&& db.wf()
    &&& tidy(db.rows())
    &&& counted(db.rows(), db.depths@)
}

// ------------------------------------------------------------------- counting

spec fn one(yes: bool) -> int {
    if yes {
        1
    } else {
        0
    }
}

proof fn lemma_count_bounds(rows: db::Rows, pred: spec_fn(MessageView) -> bool)
    ensures
        0 <= messages::count(rows, pred) <= rows.len(),
{
    messages::lemma_kept_from(rows, pred);
}

proof fn lemma_count_push(rows: db::Rows, m: MessageView, pred: spec_fn(MessageView) -> bool)
    ensures
        messages::count(rows.push(m), pred) == messages::count(rows, pred) + one(pred(m)),
{
    assert(rows.push(m).drop_last() =~= rows);
}

proof fn lemma_count_update(
    rows: db::Rows,
    i: int,
    m: MessageView,
    pred: spec_fn(MessageView) -> bool,
)
    requires
        0 <= i < rows.len(),
    ensures
        messages::count(rows.update(i, m), pred) == messages::count(rows, pred) - one(
            pred(rows[i]),
        ) + one(pred(m)),
    decreases rows.len(),
{
    let after = rows.update(i, m);
    let init = rows.drop_last();
    if i == rows.len() - 1 {
        assert(after.drop_last() =~= init);
    } else {
        lemma_count_update(init, i, m, pred);
        assert(after.drop_last() =~= init.update(i, m));
        assert(after.last() == rows.last());
    }
}

/// Rows that agree on a predicate, place by place, count alike.
proof fn lemma_count_alike(a: db::Rows, b: db::Rows, pred: spec_fn(MessageView) -> bool)
    requires
        a.len() == b.len(),
        forall|i: int| 0 <= i < a.len() ==> pred(#[trigger] a[i]) == pred(b[i]),
    ensures
        messages::count(a, pred) == messages::count(b, pred),
    decreases a.len(),
{
    if a.len() > 0 {
        assert forall|i: int| 0 <= i < a.len() - 1 implies pred(#[trigger] a.drop_last()[i])
            == pred(b.drop_last()[i]) by {
            assert(pred(a[i]) == pred(b[i]));
        }
        lemma_count_alike(a.drop_last(), b.drop_last(), pred);
        assert(pred(a[a.len() - 1]) == pred(b[a.len() - 1]));
    }
}

/// None counted where none satisfies the predicate, and the other way round.
proof fn lemma_count_none(rows: db::Rows, pred: spec_fn(MessageView) -> bool)
    ensures
        messages::count(rows, pred) == 0 <==> forall|i: int|
            0 <= i < rows.len() ==> !pred(#[trigger] rows[i]),
    decreases rows.len(),
{
    if rows.len() > 0 {
        let init = rows.drop_last();
        lemma_count_none(init, pred);
        lemma_count_bounds(init, pred);
        if messages::count(rows, pred) == 0 {
            assert forall|i: int| 0 <= i < rows.len() implies !pred(#[trigger] rows[i]) by {
                if i < init.len() {
                    assert(!pred(init[i]));
                }
            }
        } else if forall|i: int| 0 <= i < rows.len() ==> !pred(#[trigger] rows[i]) {
            assert forall|i: int| 0 <= i < init.len() implies !pred(#[trigger] init[i]) by {
                assert(!pred(rows[i]));
            }
            assert(!pred(rows[rows.len() - 1]));
        }
    }
}

/// Rows that are deleted do not count if they do not satisfy the predicate.
proof fn lemma_count_kept(
    rows: db::Rows,
    keep: spec_fn(MessageView) -> bool,
    pred: spec_fn(MessageView) -> bool,
)
    requires
        forall|m: MessageView| #[trigger] pred(m) ==> keep(m),
    ensures
        messages::count(messages::kept(rows, keep), pred) == messages::count(rows, pred),
    decreases rows.len(),
{
    if rows.len() > 0 {
        let init = rows.drop_last();
        lemma_count_kept(init, keep, pred);
        if keep(rows.last()) {
            lemma_count_push(messages::kept(init, keep), rows.last(), pred);
        }
    }
}

/// A deletion that deletes nothing.
proof fn lemma_kept_everything(rows: db::Rows, keep: spec_fn(MessageView) -> bool)
    requires
        messages::count(rows, keep) == rows.len(),
    ensures
        messages::kept(rows, keep) == rows,
    decreases rows.len(),
{
    if rows.len() > 0 {
        let init = rows.drop_last();
        lemma_count_bounds(init, keep);
        lemma_kept_everything(init, keep);
        assert(init.push(rows.last()) =~= rows);
    }
}

// ------------------------------------------------------------------- tidiness

/// Whether a row of `rows` has the identifier, the key and the topic of `m`.
spec fn named_in(rows: db::Rows, m: MessageView) -> bool {
    exists|i: int|
        0 <= i < rows.len() && (#[trigger] rows[i]).id == m.id && rows[i].topic == m.topic
            && rows[i].idempotency_key == m.idempotency_key
}

/// Every row of `b` has the identifier, the key and the topic of a row of `a`.
spec fn drawn(a: db::Rows, b: db::Rows) -> bool {
    forall|j: int| 0 <= j < b.len() ==> named_in(a, #[trigger] b[j])
}

/// Messages that only change or go leave the shards tidy.
proof fn lemma_tidy_drawn(rows: Seq<db::Rows>, after: Seq<db::Rows>)
    requires
        tidy(rows),
        after.len() == rows.len(),
        forall|s: int|
            0 <= s < rows.len() ==> drawn(rows[s], #[trigger] after[s]) && messages::unique(
                after[s],
            ) && after[s].len() <= rows[s].len(),
    ensures
        tidy(after),
{
    assert forall|s: int, i: int|
        0 <= s < after.len() && 0 <= i < after[s].len() implies belongs(
        #[trigger] after[s][i],
        s,
    ) by {
        assert(drawn(rows[s], after[s]));
        assert(named_in(rows[s], after[s][i]));
        let k = choose|k: int|
            0 <= k < rows[s].len() && (#[trigger] rows[s][k]).id == after[s][i].id
                && rows[s][k].topic == after[s][i].topic && rows[s][k].idempotency_key
                == after[s][i].idempotency_key;
        assert(belongs(rows[s][k], s));
    }
    assert forall|s: int, i: int, t: int, j: int|
        0 <= s < t < after.len() && 0 <= i < after[s].len() && 0 <= j < after[t].len() implies apart(
        #[trigger] after[s][i],
        #[trigger] after[t][j],
    ) by {
        assert(drawn(rows[s], after[s]));
        assert(drawn(rows[t], after[t]));
        assert(named_in(rows[s], after[s][i]));
        assert(named_in(rows[t], after[t][j]));
        let a = choose|k: int|
            0 <= k < rows[s].len() && (#[trigger] rows[s][k]).id == after[s][i].id
                && rows[s][k].topic == after[s][i].topic && rows[s][k].idempotency_key
                == after[s][i].idempotency_key;
        let b = choose|k: int|
            0 <= k < rows[t].len() && (#[trigger] rows[t][k]).id == after[t][j].id
                && rows[t][k].topic == after[t][j].topic && rows[t][k].idempotency_key
                == after[t][j].idempotency_key;
        assert(apart(rows[s][a], rows[t][b]));
    }
    assert(fits(after)) by {
        assert forall|s: int| 0 <= s < after.len() implies (#[trigger] after[s]).len()
            <= i64::MAX by {
            assert(rows[s].len() <= i64::MAX);
        }
    }
}

/// A new message with an identifier that names the shard of its topic, and with
/// an idempotency key that no message has, leaves the shards tidy.
proof fn lemma_tidy_push(rows: Seq<db::Rows>, m: MessageView)
    requires
        tidy(rows),
        shard::shard_of_id(m.id) == Some(shard::shard_of(m.topic)),
        rows[shard::shard_of(m.topic)].len() < i64::MAX,
        !messages::clashes(rows[shard::shard_of(m.topic)], m),
        m.idempotency_key matches Some(key) ==> db::key_place(rows, key) is None,
    ensures
        tidy(
            rows.update(
                shard::shard_of(m.topic),
                rows[shard::shard_of(m.topic)].push(m),
            ),
        ),
{
    shard::law_every_topic_has_a_shard(m.topic);
    let at = shard::shard_of(m.topic);
    let after = rows.update(at, rows[at].push(m));
    messages::lemma_unique_push(rows[at], m);
    assert forall|s: int| 0 <= s < after.len() implies messages::unique(#[trigger] after[s]) by {
        assert(messages::unique(rows[s]));
    }
    assert forall|s: int, i: int|
        0 <= s < after.len() && 0 <= i < after[s].len() implies belongs(
        #[trigger] after[s][i],
        s,
    ) by {
        if s != at || i < rows[at].len() {
            assert(after[s][i] == rows[s][i]);
            assert(belongs(rows[s][i], s));
        }
    }
    assert forall|s: int, i: int, t: int, j: int|
        0 <= s < t < after.len() && 0 <= i < after[s].len() && 0 <= j < after[t].len() implies apart(
        #[trigger] after[s][i],
        #[trigger] after[t][j],
    ) by {
        if m.idempotency_key is Some {
            db::lemma_key_place(rows, m.idempotency_key->0);
        }
        let new_s = s == at && i == rows[at].len();
        let new_t = t == at && j == rows[at].len();
        if !new_s {
            assert(after[s][i] == rows[s][i]);
            assert(belongs(rows[s][i], s));
        }
        if !new_t {
            assert(after[t][j] == rows[t][j]);
            assert(belongs(rows[t][j], t));
        }
        if !new_s && !new_t {
            assert(apart(rows[s][i], rows[t][j]));
        }
    }
    assert(fits(after)) by {
        assert forall|s: int| 0 <= s < after.len() implies (#[trigger] after[s]).len()
            <= i64::MAX by {
            assert(rows[s].len() <= i64::MAX);
        }
    }
}

// ------------------------------------------------------------- one row changes

/// How a count changes when a row with the status `from` gets the status `to`.
spec fn shift(from: MessageStatus, to: MessageStatus, status: MessageStatus) -> int {
    one(to == status) - one(from == status)
}

/// A message that changes its state, with the depth of its topic, keeps the
/// store sound.
proof fn lemma_row_changed(
    rows: Seq<db::Rows>,
    depths: db::Depths,
    at: (int, int),
    m: MessageView,
    pending: i64,
    processing: i64,
)
    requires
        tidy(rows),
        counted(rows, depths),
        0 <= at.0 < rows.len(),
        0 <= at.1 < rows[at.0].len(),
        m.id == rows[at.0][at.1].id,
        m.topic == rows[at.0][at.1].topic,
        m.idempotency_key == rows[at.0][at.1].idempotency_key,
        pending == shift(rows[at.0][at.1].status, m.status, MessageStatus::Pending),
        processing == shift(rows[at.0][at.1].status, m.status, MessageStatus::Processing),
    ensures
        tidy(db::with_row(rows, at, m)),
        counted(
            db::with_row(rows, at, m),
            catalog::depth_bumped(depths, m.topic, pending, processing),
        ),
{
    let s = at.0;
    let i = at.1;
    let own = rows[s];
    let after = db::with_row(rows, at, m);
    let later = catalog::depth_bumped(depths, m.topic, pending, processing);
    assert(belongs(rows[s][i], s));
    assert forall|k: int| 0 <= k < rows.len() implies drawn(rows[k], #[trigger] after[k])
        && messages::unique(after[k]) && after[k].len() <= rows[k].len() by {
        assert(messages::unique(rows[k]));
        assert forall|j: int| 0 <= j < after[k].len() implies named_in(
            rows[k],
            #[trigger] after[k][j],
        ) by {
            assert(rows[k][j].id == after[k][j].id);
        }
        if k == s {
            messages::lemma_unique_same_names(own, after[s]);
        }
    }
    lemma_tidy_drawn(rows, after);
    assert forall|t: Seq<char>| #[trigger] depth_counts(after, later, t) by {
        assert(depth_counts(rows, depths, t));
        shard::law_every_topic_has_a_shard(t);
        if shard::shard_of(t) == s {
            lemma_count_update(own, i, m, messages::waiting_for(t));
            lemma_count_update(own, i, m, held_for(t));
            lemma_count_bounds(after[s], messages::waiting_for(t));
            lemma_count_bounds(after[s], held_for(t));
            assert(own.len() <= i64::MAX);
            assert(after[s].len() == own.len());
        } else {
            assert(after[shard::shard_of(t)] == rows[shard::shard_of(t)]);
        }
    }
}

/// The shard that an identifier names is one of the sixteen.
proof fn lemma_named_shard(id: Seq<char>)
    ensures
        shard::shard_of_id(id) matches Some(k) ==> 0 <= k < 16,
{
}

proof fn lemma_holder(shards: Seq<db::Rows>, id: Seq<char>, n: int)
    requires
        n <= shards.len(),
    ensures
        db::holder(shards, id, n) matches Some(s) ==> 0 <= s < n && messages::first_place(
            shards[s],
            messages::has_id(id),
        ) is Some,
        db::holder(shards, id, n) is None ==> forall|s: int|
            0 <= s < n ==> messages::first_place(
                #[trigger] shards[s],
                messages::has_id(id),
            ) is None,
    decreases n,
{
    if n > 0 {
        lemma_holder(shards, id, n - 1);
    }
}

/// A held message is where it is looked for.
pub proof fn lemma_held_at(rows: Seq<db::Rows>, id: Seq<char>, lease: Seq<char>)
    requires
        rows.len() == MESSAGE_SHARDS,
    ensures
        db::held_at(rows, id, lease) matches Some(at) ==> {
            &&& 0 <= at.0 < rows.len()
            &&& 0 <= at.1 < rows[at.0].len()
            &&& rows[at.0][at.1].status == MessageStatus::Processing
            &&& rows[at.0][at.1].id == id
            &&& rows[at.0][at.1].lease == Some(lease)
        },
{
    lemma_named_shard(id);
    lemma_holder(rows, id, rows.len() as int);
    match db::home(rows, id) {
        Some(s) => messages::lemma_first_place(rows[s], messages::held_under(id, lease)),
        None => {},
    }
}

/// A stored message is looked for in the shard in which it is.
pub proof fn lemma_home(rows: Seq<db::Rows>, s: int, i: int)
    requires
        tidy(rows),
        0 <= s < rows.len(),
        0 <= i < rows[s].len(),
    ensures
        db::home(rows, rows[s][i].id) == Some(s),
{
    let id = rows[s][i].id;
    assert(belongs(rows[s][i], s));
    if shard::shard_of_id(id) is None {
        lemma_holder(rows, id, rows.len() as int);
        messages::lemma_first_place(rows[s], messages::has_id(id));
        assert(messages::has_id(id)(rows[s][i]));
        let k = db::holder(rows, id, rows.len() as int)->0;
        messages::lemma_first_place(rows[k], messages::has_id(id));
        let j = messages::first_place(rows[k], messages::has_id(id))->0;
        assert(rows[k][j].id == rows[s][i].id);
    }
}

// ------------------------------------------------------------------ laws: claims

/// A claim on a shard keeps the store sound.
pub proof fn law_a_claim_keeps_the_store_sound(
    before: Database,
    after: Database,
    s: int,
    want: WantView,
    now: Seq<char>,
    lease: Seq<char>,
    visible_again: Seq<char>,
    r: Result<Option<ClaimedMessage>, BadAttributes>,
)
    requires
        sound(before),
        0 <= s < MESSAGE_SHARDS,
        queue::claimed_on(before, after, s, want, now, lease, visible_again, r),
    ensures
        sound(after),
{
    let rows = before.rows();
    messages::lemma_oldest_place(rows[s], messages::claimable(want, now));
    match messages::claim_place(rows[s], want, now) {
        None => {},
        Some(i) => {
            lemma_row_changed(
                rows,
                before.depths@,
                (s, i),
                messages::as_claimed(rows[s][i], lease, visible_again),
                -1 as i64,
                1,
            );
        },
    }
}

proof fn lemma_serving(
    rows: Seq<db::Rows>,
    want: WantView,
    now: Seq<char>,
    start: int,
    n: int,
)
    ensures
        queue::serving_shard(rows, want, now, start, n) matches Some(s) ==> 0 <= s < 16,
    decreases n,
{
    if n > 0 {
        lemma_serving(rows, want, now, start, n - 1);
    }
}

/// A claim on all shards keeps the store sound.
pub proof fn law_a_claim_anywhere_keeps_the_store_sound(
    before: Database,
    after: Database,
    want: WantView,
    now: Seq<char>,
    lease: Seq<char>,
    visible_again: Seq<char>,
    r: Result<Option<ClaimedMessage>, BadAttributes>,
)
    requires
        sound(before),
        queue::claimed_anywhere(before, after, want, now, lease, visible_again, r),
    ensures
        sound(after),
{
    let moved = Database { cursor: queue::advanced(before.cursor), ..before };
    let start = before.cursor as int % 16;
    lemma_serving(before.rows(), want, now, start, 16);
    assert(sound(moved));
    match queue::serving_shard(before.rows(), want, now, start, 16) {
        None => {},
        Some(s) => {
            law_a_claim_keeps_the_store_sound(moved, after, s, want, now, lease, visible_again, r);
        },
    }
}

/// A message that is handed to a worker is found again under its identifier and
/// its lease: the worker can settle it.
pub proof fn law_a_claimed_message_can_be_settled(
    before: Database,
    after: Database,
    s: int,
    want: WantView,
    now: Seq<char>,
    lease: Seq<char>,
    visible_again: Seq<char>,
    m: ClaimedMessage,
)
    requires
        sound(before),
        0 <= s < MESSAGE_SHARDS,
        queue::claimed_on(before, after, s, want, now, lease, visible_again, Ok(Some(m))),
    ensures
        m@.lease == lease,
        db::held_at(after.rows(), m@.id, m@.lease) matches Some(at) && {
            &&& at.0 == s
            &&& after.rows()[at.0][at.1].payload == m@.payload
            &&& after.rows()[at.0][at.1].topic == m@.topic
        },
{
    let rows = before.rows();
    law_a_claim_keeps_the_store_sound(
        before,
        after,
        s,
        want,
        now,
        lease,
        visible_again,
        Ok(Some(m)),
    );
    messages::lemma_oldest_place(rows[s], messages::claimable(want, now));
    let i = messages::claim_place(rows[s], want, now)->0;
    let own = after.rows()[s];
    assert(own[i].id == m@.id);
    lemma_home(after.rows(), s, i);
    assert(messages::unique(own));
    messages::law_only_the_lease_holder_settles(own, i, lease, lease);
}

// -------------------------------------------------------------- laws: settling

/// A release keeps the store sound.
pub proof fn law_a_release_keeps_the_store_sound(
    before: Database,
    after: Database,
    id: Seq<char>,
    lease: Seq<char>,
    ok: bool,
)
    requires
        sound(before),
        queue::released(before, after, id, lease, ok),
    ensures
        sound(after),
{
    let rows = before.rows();
    lemma_held_at(rows, id, lease);
    match db::held_at(rows, id, lease) {
        None => {},
        Some(at) => lemma_row_changed(
            rows,
            before.depths@,
            at,
            messages::as_pending(rows[at.0][at.1]),
            1,
            -1 as i64,
        ),
    }
}

/// A failed attempt keeps the store sound.
pub proof fn law_a_failure_keeps_the_store_sound(
    before: Database,
    after: Database,
    id: Seq<char>,
    lease: Seq<char>,
    error: Seq<char>,
    max_attempts: i64,
    now: UtcTime,
    ok: bool,
)
    requires
        sound(before),
        queue::attempt_failed(before, after, id, lease, error, max_attempts, now, ok),
    ensures
        sound(after),
{
    let rows = before.rows();
    lemma_held_at(rows, id, lease);
    match db::held_at(rows, id, lease) {
        None => {},
        Some(at) => {
            let row = rows[at.0][at.1];
            let over = messages::status_after_failure(row.attempts, max_attempts)
                == MessageStatus::Failed;
            lemma_row_changed(
                rows,
                before.depths@,
                at,
                messages::as_failed(
                    row,
                    error,
                    max_attempts,
                    queue::next_attempt(row.attempts, now),
                ),
                if over {
                    0i64
                } else {
                    1i64
                },
                -1 as i64,
            );
        },
    }
}

/// A message whose attempt failed is ready again when the seconds of its delay
/// have passed, and not before.
pub proof fn law_a_retry_waits_for_its_seconds(
    before: Database,
    after: Database,
    id: Seq<char>,
    lease: Seq<char>,
    error: Seq<char>,
    max_attempts: i64,
    then: UtcTime,
    now: UtcTime,
)
    requires
        queue::attempt_failed(before, after, id, lease, error, max_attempts, then, true),
        before.wf(),
        ({
            let at = db::held_at(before.rows(), id, lease)->0;
            let row = before.rows()[at.0][at.1];
            &&& messages::status_after_failure(row.attempts, max_attempts)
                == MessageStatus::Pending
            &&& clock::time_after(then, queue::retry_delay(row.attempts)).writable()
        }),
        now.writable(),
    ensures
        ({
            let at = db::held_at(before.rows(), id, lease)->0;
            let row = before.rows()[at.0][at.1];
            messages::ready(after.rows()[at.0][at.1], clock::time_text(now)) == !now.is_before(
                clock::time_after(then, queue::retry_delay(row.attempts)),
            )
        }),
{
    let at = db::held_at(before.rows(), id, lease)->0;
    let row = before.rows()[at.0][at.1];
    lemma_held_at(before.rows(), id, lease);
    clock::law_texts_sort_as_times(clock::time_after(then, queue::retry_delay(row.attempts)), now);
}

/// Dropping a held message keeps the store sound.
pub proof fn law_dropping_a_message_keeps_the_store_sound(
    before: Database,
    after: Database,
    id: Seq<char>,
    lease: Seq<char>,
    error: Seq<char>,
    now: Seq<char>,
    ok: bool,
)
    requires
        sound(before),
        queue::claimed_dropped(before, after, id, lease, error, now, ok),
    ensures
        sound(after),
{
    let rows = before.rows();
    lemma_held_at(rows, id, lease);
    match db::held_at(rows, id, lease) {
        None => {},
        Some(at) => lemma_row_changed(
            rows,
            before.depths@,
            at,
            messages::as_dropped(rows[at.0][at.1], error),
            0,
            -1 as i64,
        ),
    }
}

proof fn lemma_delivered_steps(
    t: db::Tally,
    list: Seq<(Seq<char>, Seq<char>)>,
    now: Seq<char>,
    minute: Seq<char>,
)
    requires
        tidy(t.shards),
        counted(t.shards, t.depths),
    ensures
        tidy(db::delivered_steps(t, list, now, minute).1.shards),
        counted(
            db::delivered_steps(t, list, now, minute).1.shards,
            db::delivered_steps(t, list, now, minute).1.depths,
        ),
    decreases list.len(),
{
    if list.len() > 0 {
        lemma_delivered_steps(t, list.drop_last(), now, minute);
        let mid = db::delivered_steps(t, list.drop_last(), now, minute).1;
        let (id, lease) = list.last();
        lemma_held_at(mid.shards, id, lease);
        match db::held_at(mid.shards, id, lease) {
            None => {},
            Some(at) => lemma_row_changed(
                mid.shards,
                mid.depths,
                at,
                messages::as_delivered(mid.shards[at.0][at.1], now),
                0,
                -1 as i64,
            ),
        }
    }
}

/// Deliveries keep the store sound.
pub proof fn law_deliveries_keep_the_store_sound(
    before: Database,
    after: Database,
    list: Seq<(Seq<char>, Seq<char>)>,
    results: Seq<bool>,
    now: UtcTime,
)
    requires
        sound(before),
        db::batch_delivered(before, after, list, results, now),
    ensures
        sound(after),
{
    lemma_delivered_steps(
        db::tally(before),
        list,
        clock::time_text(now),
        clock::minute_text(now),
    );
}

/// Dropping what waits of a topic keeps the store sound.
pub proof fn law_dropping_what_waits_keeps_the_store_sound(
    before: Database,
    after: Database,
    topic: Seq<char>,
    now: Seq<char>,
    dropped: int,
)
    requires
        sound(before),
        queue::pending_dropped(before, after, topic, now, dropped),
    ensures
        sound(after),
{
    let rows = before.rows();
    let s = shard::shard_of(topic);
    let waits = messages::waiting_for(topic);
    let error = messages::to_dropped("no live subscriber"@);
    let own = messages::changed(rows[s], waits, error);
    let later = after.rows();
    shard::law_every_topic_has_a_shard(topic);
    lemma_tidy_changed(rows, s, waits, error);
    lemma_count_bounds(rows[s], waits);
    assert(rows[s].len() <= i64::MAX);
    assert forall|t: Seq<char>| #[trigger] depth_counts(later, after.depths@, t) by {
        assert(depth_counts(rows, before.depths@, t));
        shard::law_every_topic_has_a_shard(t);
        if shard::shard_of(t) == s {
            lemma_count_alike(rows[s], own, held_for(t));
            if t == topic {
                lemma_count_none(own, messages::waiting_for(t));
            } else {
                lemma_count_alike(rows[s], own, messages::waiting_for(t));
            }
        } else {
            assert(later[shard::shard_of(t)] == rows[shard::shard_of(t)]);
        }
    }
}

/// Changes that spare identifiers, keys and topics leave the shards tidy.
proof fn lemma_tidy_changed(
    rows: Seq<db::Rows>,
    s: int,
    pred: spec_fn(MessageView) -> bool,
    change: spec_fn(MessageView) -> MessageView,
)
    requires
        tidy(rows),
        0 <= s < rows.len(),
        forall|m: MessageView|
            (#[trigger] change(m)).id == m.id && change(m).topic == m.topic
                && change(m).idempotency_key == m.idempotency_key,
    ensures
        tidy(rows.update(s, messages::changed(rows[s], pred, change))),
{
    let own = messages::changed(rows[s], pred, change);
    let after = rows.update(s, own);
    assert forall|k: int| 0 <= k < rows.len() implies drawn(rows[k], #[trigger] after[k])
        && messages::unique(after[k]) && after[k].len() <= rows[k].len() by {
        assert(messages::unique(rows[k]));
        assert forall|j: int| 0 <= j < after[k].len() implies named_in(
            rows[k],
            #[trigger] after[k][j],
        ) by {
            assert(change(rows[k][j]).id == rows[k][j].id);
            assert(rows[k][j].id == after[k][j].id);
        }
        if k == s {
            assert forall|i: int| 0 <= i < own.len() implies (#[trigger] own[i]).id == rows[s][i].id
                && own[i].idempotency_key == rows[s][i].idempotency_key by {
                assert(change(rows[s][i]).id == rows[s][i].id);
            }
            messages::lemma_unique_same_names(rows[s], own);
        }
    }
    lemma_tidy_drawn(rows, after);
}

// ----------------------------------------------------------- counting afresh

proof fn lemma_rows_counted(depths: db::Depths, rows: db::Rows, topic: Seq<char>)
    requires
        0 <= catalog::depth_in(depths, topic).pending,
        0 <= catalog::depth_in(depths, topic).processing,
        catalog::depth_in(depths, topic).pending + messages::count(
            rows,
            messages::waiting_for(topic),
        ) <= i64::MAX,
        catalog::depth_in(depths, topic).processing + messages::count(rows, held_for(topic))
            <= i64::MAX,
    ensures
        ({
            let d = catalog::depth_in(depths, topic);
            let after = catalog::depth_in(db::rows_counted(depths, rows), topic);
            &&& after.pending == d.pending + messages::count(rows, messages::waiting_for(topic))
            &&& after.processing == d.processing + messages::count(rows, held_for(topic))
        }),
    decreases rows.len(),
{
    if rows.len() > 0 {
        lemma_count_bounds(rows.drop_last(), messages::waiting_for(topic));
        lemma_count_bounds(rows.drop_last(), held_for(topic));
        lemma_rows_counted(depths, rows.drop_last(), topic);
    }
}

proof fn lemma_depths_of(rows: Seq<db::Rows>, n: int, topic: Seq<char>)
    requires
        tidy(rows),
        0 <= n <= rows.len(),
    ensures
        ({
            let d = catalog::depth_in(db::depths_of(rows.take(n)), topic);
            let s = shard::shard_of(topic);
            if s < n {
                &&& d.pending == messages::count(rows[s], messages::waiting_for(topic))
                &&& d.processing == messages::count(rows[s], held_for(topic))
            } else {
                d.pending == 0 && d.processing == 0
            }
        }),
    decreases n,
{
    shard::law_every_topic_has_a_shard(topic);
    if n > 0 {
        let s = shard::shard_of(topic);
        let some = rows.take(n);
        let waits = messages::waiting_for(topic);
        let held = held_for(topic);
        lemma_depths_of(rows, n - 1, topic);
        assert(some.drop_last() =~= rows.take(n - 1));
        assert(some.last() == rows[n - 1]);
        lemma_count_bounds(rows[n - 1], waits);
        lemma_count_bounds(rows[n - 1], held);
        lemma_count_bounds(rows[s], waits);
        lemma_count_bounds(rows[s], held);
        assert(rows[s].len() <= i64::MAX);
        if s != n - 1 {
            assert forall|i: int| 0 <= i < rows[n - 1].len() implies !waits(
                #[trigger] rows[n - 1][i],
            ) && !held(rows[n - 1][i]) by {
                assert(belongs(rows[n - 1][i], n - 1));
            }
            lemma_count_none(rows[n - 1], waits);
            lemma_count_none(rows[n - 1], held);
        }
        lemma_rows_counted(db::depths_of(rows.take(n - 1)), rows[n - 1], topic);
    }
}

/// Depths that are counted afresh count the messages.
pub proof fn law_fresh_depths_count_the_messages(rows: Seq<db::Rows>)
    requires
        tidy(rows),
    ensures
        counted(rows, db::depths_of(rows)),
{
    assert(rows.take(rows.len() as int) =~= rows);
    assert forall|t: Seq<char>| #[trigger] depth_counts(rows, db::depths_of(rows), t) by {
        shard::law_every_topic_has_a_shard(t);
        lemma_depths_of(rows, rows.len() as int, t);
    }
}

// ---------------------------------------------------------- laws: housekeeping

/// Changes to all shards that spare identifiers, keys and topics leave them tidy.
proof fn lemma_tidy_changed_all(
    rows: Seq<db::Rows>,
    pred: spec_fn(MessageView) -> bool,
    change: spec_fn(MessageView) -> MessageView,
)
    requires
        tidy(rows),
        forall|m: MessageView|
            (#[trigger] change(m)).id == m.id && change(m).topic == m.topic
                && change(m).idempotency_key == m.idempotency_key,
    ensures
        tidy(retention::changed_all(rows, pred, change)),
{
    let after = retention::changed_all(rows, pred, change);
    assert forall|k: int| 0 <= k < rows.len() implies drawn(rows[k], #[trigger] after[k])
        && messages::unique(after[k]) && after[k].len() <= rows[k].len() by {
        assert(messages::unique(rows[k]));
        assert(after[k] == messages::changed(rows[k], pred, change));
        assert forall|j: int| 0 <= j < after[k].len() implies named_in(
            rows[k],
            #[trigger] after[k][j],
        ) by {
            assert(change(rows[k][j]).id == rows[k][j].id);
            assert(rows[k][j].id == after[k][j].id);
        }
        assert forall|i: int| 0 <= i < after[k].len() implies (#[trigger] after[k][i]).id
            == rows[k][i].id && after[k][i].idempotency_key == rows[k][i].idempotency_key by {
            assert(change(rows[k][i]).id == rows[k][i].id);
        }
        messages::lemma_unique_same_names(rows[k], after[k]);
    }
    lemma_tidy_drawn(rows, after);
}

proof fn lemma_kept_drawn(rows: db::Rows, keep: spec_fn(MessageView) -> bool)
    requires
        messages::unique(rows),
    ensures
        drawn(rows, messages::kept(rows, keep)),
        messages::unique(messages::kept(rows, keep)),
        messages::kept(rows, keep).len() <= rows.len(),
{
    let some = messages::kept(rows, keep);
    messages::lemma_kept_from(rows, keep);
    messages::lemma_unique_kept(rows, keep);
    assert forall|j: int| 0 <= j < some.len() implies named_in(rows, #[trigger] some[j]) by {
        assert(rows.contains(some[j]));
        let i = rows.index_of(some[j]);
        assert(rows[i].id == some[j].id);
    }
}

/// Deletions leave the shards tidy.
proof fn lemma_tidy_kept(rows: Seq<db::Rows>, s: int, keep: spec_fn(MessageView) -> bool)
    requires
        tidy(rows),
        0 <= s < rows.len(),
    ensures
        tidy(rows.update(s, messages::kept(rows[s], keep))),
{
    let after = rows.update(s, messages::kept(rows[s], keep));
    assert forall|k: int| 0 <= k < rows.len() implies drawn(rows[k], #[trigger] after[k])
        && messages::unique(after[k]) && after[k].len() <= rows[k].len() by {
        assert(messages::unique(rows[k]));
        if k == s {
            lemma_kept_drawn(rows[s], keep);
        } else {
            assert forall|j: int| 0 <= j < after[k].len() implies named_in(
                rows[k],
                #[trigger] after[k][j],
            ) by {
                assert(rows[k][j].id == after[k][j].id);
            }
        }
    }
    lemma_tidy_drawn(rows, after);
}

proof fn lemma_tidy_kept_all(rows: Seq<db::Rows>, keep: spec_fn(MessageView) -> bool)
    requires
        tidy(rows),
    ensures
        tidy(retention::kept_all(rows, keep)),
{
    let after = retention::kept_all(rows, keep);
    assert forall|k: int| 0 <= k < rows.len() implies drawn(rows[k], #[trigger] after[k])
        && messages::unique(after[k]) && after[k].len() <= rows[k].len() by {
        assert(messages::unique(rows[k]));
        lemma_kept_drawn(rows[k], keep);
    }
    lemma_tidy_drawn(rows, after);
}

proof fn lemma_none_counted(rows: Seq<db::Rows>, pred: spec_fn(MessageView) -> bool, s: int)
    requires
        retention::count_all(rows, pred) <= 0,
        0 <= s < rows.len(),
    ensures
        messages::count(rows[s], pred) == 0,
    decreases rows.len(),
{
    let init = rows.drop_last();
    lemma_total_positive(init, pred);
    lemma_count_bounds(rows.last(), pred);
    if s < init.len() {
        lemma_none_counted(init, pred, s);
        assert(init[s] == rows[s]);
    }
}

proof fn lemma_total_positive(rows: Seq<db::Rows>, pred: spec_fn(MessageView) -> bool)
    ensures
        retention::count_all(rows, pred) >= 0,
        retention::loss_all(rows, pred) >= 0,
    decreases rows.len(),
{
    if rows.len() > 0 {
        lemma_total_positive(rows.drop_last(), pred);
        lemma_count_bounds(rows.last(), pred);
    }
}

proof fn lemma_none_lost(rows: Seq<db::Rows>, pred: spec_fn(MessageView) -> bool, s: int)
    requires
        retention::loss_all(rows, pred) <= 0,
        0 <= s < rows.len(),
    ensures
        messages::count(rows[s], pred) == rows[s].len(),
    decreases rows.len(),
{
    let init = rows.drop_last();
    lemma_total_positive(init, pred);
    lemma_count_bounds(rows.last(), pred);
    if s < init.len() {
        lemma_none_lost(init, pred, s);
        assert(init[s] == rows[s]);
    }
}

/// Reclaiming keeps the store sound.
pub proof fn law_reclaiming_keeps_the_store_sound(
    before: Database,
    after: Database,
    now: Seq<char>,
    n: u64,
)
    requires
        sound(before),
        retention::reclaimed(before, after, now, n),
    ensures
        sound(after),
{
    let rows = before.rows();
    let stale = messages::stale(now);
    lemma_tidy_changed_all(rows, stale, messages::to_pending());
    if n > 0 {
        law_fresh_depths_count_the_messages(after.rows());
    } else {
        assert forall|s: int| 0 <= s < rows.len() implies #[trigger] after.rows()[s] == rows[s] by {
            lemma_none_counted(rows, stale, s);
            lemma_count_none(rows[s], stale);
            assert(after.rows()[s] =~= rows[s]);
        }
        assert(after.rows() =~= rows);
    }
}

/// Deleting old messages keeps the store sound.
pub proof fn law_purging_keeps_the_store_sound(
    before: Database,
    after: Database,
    cutoff: Seq<char>,
    n: u64,
)
    requires
        sound(before),
        retention::purged(before, after, messages::not_created_before(cutoff), true, n),
    ensures
        sound(after),
{
    let rows = before.rows();
    let keep = messages::not_created_before(cutoff);
    lemma_tidy_kept_all(rows, keep);
    if n > 0 {
        law_fresh_depths_count_the_messages(after.rows());
    } else {
        assert forall|s: int| 0 <= s < rows.len() implies #[trigger] after.rows()[s] == rows[s] by {
            lemma_none_lost(rows, keep, s);
            lemma_kept_everything(rows[s], keep);
        }
        assert(after.rows() =~= rows);
    }
}

/// Deleting delivered messages keeps the store sound.
pub proof fn law_purging_delivered_keeps_the_store_sound(
    before: Database,
    after: Database,
    cutoff: Seq<char>,
    n: u64,
)
    requires
        sound(before),
        retention::purged(before, after, messages::not_delivered_before(cutoff), false, n),
    ensures
        sound(after),
{
    let rows = before.rows();
    let keep = messages::not_delivered_before(cutoff);
    lemma_tidy_kept_all(rows, keep);
    assert forall|t: Seq<char>| #[trigger] depth_counts(after.rows(), after.depths@, t) by {
        assert(depth_counts(rows, before.depths@, t));
        shard::law_every_topic_has_a_shard(t);
        let s = shard::shard_of(t);
        lemma_count_kept(rows[s], keep, messages::waiting_for(t));
        lemma_count_kept(rows[s], keep, held_for(t));
    }
}

/// Clearing keeps the store sound.
pub proof fn law_clearing_keeps_the_store_sound(
    before: Database,
    after: Database,
    filter: Seq<char>,
    now: Seq<char>,
    n: u64,
)
    requires
        sound(before),
        retention::cleared(before, after, filter, now, n),
    ensures
        sound(after),
{
    let keep = messages::not_picked(filter);
    shard::law_every_topic_has_a_shard(filter);
    lemma_tidy_kept_all(before.rows(), keep);
    lemma_tidy_kept(before.rows(), shard::shard_of(filter), keep);
    law_fresh_depths_count_the_messages(after.rows());
}

proof fn lemma_rows_without(rows: Seq<db::Rows>, names: Seq<Seq<char>>, topic: Seq<char>)
    requires
        tidy(rows),
    ensures
        ({
            let after = retention::rows_without(rows, names);
            let s = shard::shard_of(topic);
            let waits = messages::waiting_for(topic);
            &&& tidy(after)
            &&& messages::count(after[s], waits) == (if names.contains(topic) {
                0
            } else {
                messages::count(rows[s], waits)
            })
            &&& messages::count(after[s], held_for(topic)) == (if names.contains(topic) {
                0
            } else {
                messages::count(rows[s], held_for(topic))
            })
        }),
    decreases names.len(),
{
    shard::law_every_topic_has_a_shard(topic);
    if names.len() > 0 {
        let init = names.drop_last();
        let name = names.last();
        let s = shard::shard_of(topic);
        let k = shard::shard_of(name);
        let mid = retention::rows_without(rows, init);
        let keep = messages::not_of_topic(name);
        let waits = messages::waiting_for(topic);
        let held = held_for(topic);
        lemma_rows_without(rows, init, topic);
        shard::law_every_topic_has_a_shard(name);
        lemma_tidy_kept(mid, k, keep);
        assert(names =~= init.push(name));
        assert(names.contains(topic) <==> init.contains(topic) || name == topic) by {
            if init.contains(topic) {
                assert(names[init.index_of(topic)] == topic);
            }
            if name == topic {
                assert(names[names.len() - 1] == topic);
            }
        }
        if name == topic {
            let own = messages::kept(mid[k], keep);
            messages::lemma_kept_from(mid[k], keep);
            lemma_count_none(own, waits);
            lemma_count_none(own, held);
        } else if k == s {
            lemma_count_kept(mid[k], keep, waits);
            lemma_count_kept(mid[k], keep, held);
        }
    }
}

/// Forgetting idle topics keeps the store sound.
pub proof fn law_forgetting_idle_topics_keeps_the_store_sound(
    before: Database,
    after: Database,
    cutoff: Seq<char>,
    keep: Seq<Seq<char>>,
    now: Seq<char>,
    n: usize,
)
    requires
        sound(before),
        retention::idle_purged(before, after, cutoff, keep, now, n),
    ensures
        sound(after),
{
    let topics = db::topics_flushed(before, now);
    let names = choose|names: Seq<Seq<char>>|
        {
            &&& #[trigger] retention::are_idle(topics, before.consumers@, cutoff, keep, names)
            &&& n == names.len()
            &&& after.rows() == retention::rows_without(before.rows(), names)
            &&& after.depths@ == retention::without(before.depths@, names)
        };
    lemma_rows_without(before.rows(), names, Seq::empty());
    assert forall|t: Seq<char>| #[trigger] depth_counts(after.rows(), after.depths@, t) by {
        assert(depth_counts(before.rows(), before.depths@, t));
        lemma_rows_without(before.rows(), names, t);
    }
}

// -------------------------------------------------------------- laws: intake

/// A message that is stored under an identifier that names the shard of its topic
/// leaves the shards tidy.
proof fn lemma_put_tidy(rows: Seq<db::Rows>, item: InputView, now: Seq<char>)
    requires
        tidy(rows),
        shard::shard_of_id(item.id) == Some(shard::shard_of(item.topic)),
        intake::put(rows, item, now).1[shard::shard_of(item.topic)].len() <= i64::MAX,
    ensures
        tidy(intake::put(rows, item, now).1),
{
    reveal(messages::stored);
    shard::law_every_topic_has_a_shard(item.topic);
    let s = shard::shard_of(item.topic);
    let m = messages::fresh_row(item, now);
    let after = intake::put(rows, item, now).1;
    if intake::known_place(rows, item) is None {
        if messages::clashes(rows[s], m) {
            assert(after =~= rows);
        } else {
            lemma_tidy_push(rows, m);
        }
    }
}

/// A message that is stored anew is one more that waits; one that was there
/// before changes nothing.
proof fn lemma_put_counts(
    rows: Seq<db::Rows>,
    item: InputView,
    now: Seq<char>,
    got: (Seq<char>, bool),
    topic: Seq<char>,
)
    requires
        rows.len() == MESSAGE_SHARDS,
        intake::put(rows, item, now).0 == Ok::<(Seq<char>, bool), StoreFault>(got),
    ensures
        ({
            let s = shard::shard_of(topic);
            let own = intake::put(rows, item, now).1[s];
            let waits = messages::waiting_for(topic);
            &&& messages::count(own, waits) == messages::count(rows[s], waits) + one(
                item.topic == topic && !got.1,
            )
            &&& messages::count(own, held_for(topic)) == messages::count(
                rows[s],
                held_for(topic),
            )
        }),
{
    reveal(messages::stored);
    shard::law_every_topic_has_a_shard(item.topic);
    shard::law_every_topic_has_a_shard(topic);
    let m = messages::fresh_row(item, now);
    let own = rows[shard::shard_of(item.topic)];
    lemma_count_push(own, m, messages::waiting_for(topic));
    lemma_count_push(own, m, held_for(topic));
}

/// Storing a message under an identifier that names the shard of its topic keeps
/// the store sound.
pub proof fn law_storing_keeps_the_store_sound(
    before: Database,
    after: Database,
    item: InputView,
    now: UtcTime,
    r: Result<(String, bool), StoreFault>,
)
    requires
        sound(before),
        fits(after.rows()),
        shard::shard_of_id(item.id) == Some(shard::shard_of(item.topic)),
        intake::one_stored(before, after, item, now, r),
    ensures
        sound(after),
{
    shard::law_every_topic_has_a_shard(item.topic);
    let rows = before.rows();
    let at = clock::time_text(now);
    match r {
        Err(_) => {},
        Ok(got) => {
            let found = (got.0@, got.1);
            assert(db::tally(after).shards == after.rows());
            assert(db::tally(after).depths == after.depths@);
            assert(after.rows()[shard::shard_of(item.topic)].len() <= i64::MAX);
            lemma_put_tidy(rows, item, at);
            assert forall|t: Seq<char>| #[trigger] depth_counts(
                after.rows(),
                after.depths@,
                t,
            ) by {
                assert(depth_counts(rows, before.depths@, t));
                shard::law_every_topic_has_a_shard(t);
                let s = shard::shard_of(t);
                lemma_put_counts(rows, item, at, found, t);
                lemma_count_bounds(rows[s], messages::waiting_for(t));
                lemma_count_bounds(rows[s], held_for(t));
                lemma_count_bounds(after.rows()[s], messages::waiting_for(t));
                assert(rows[s].len() <= i64::MAX);
                assert(after.rows()[s].len() <= i64::MAX);
            }
        },
    }
}

/// How many of the first `n` of `items` are of the topic and were not there
/// before.
spec fn news(
    items: Seq<InputView>,
    results: Seq<(Seq<char>, bool)>,
    topic: Seq<char>,
    n: int,
) -> int
    decreases n,
{
    if n <= 0 {
        0
    } else {
        news(items, results, topic, n - 1) + one(
            items[n - 1].topic == topic && !results[n - 1].1,
        )
    }
}

/// The depth of a topic grows by the messages that were not there before.
proof fn lemma_all_counted(
    t: db::Tally,
    items: Seq<InputView>,
    results: Seq<(Seq<char>, bool)>,
    minute: Seq<char>,
    topic: Seq<char>,
    n: int,
)
    requires
        0 <= n,
        0 <= catalog::depth_in(t.depths, topic).pending,
        0 <= catalog::depth_in(t.depths, topic).processing,
        catalog::depth_in(t.depths, topic).pending + news(items, results, topic, n) <= i64::MAX,
    ensures
        ({
            let d = catalog::depth_in(t.depths, topic);
            let after = catalog::depth_in(
                intake::all_counted(t, items, results, minute, n).depths,
                topic,
            );
            &&& after.pending == d.pending + news(items, results, topic, n)
            &&& after.processing == d.processing
            &&& 0 <= news(items, results, topic, n)
        }),
    decreases n,
{
    if n > 0 {
        lemma_all_counted(t, items, results, minute, topic, n - 1);
    }
}

/// What a shard stores counts for its topics.
proof fn lemma_group_counts(
    rows: Seq<db::Rows>,
    items: Seq<InputView>,
    times: Seq<Seq<char>>,
    results: Seq<(Seq<char>, bool)>,
    topic: Seq<char>,
    n: int,
)
    requires
        rows.len() == MESSAGE_SHARDS,
        0 <= n <= items.len(),
        forall|i: int|
            0 <= i < items.len() && shard::shard_of(items[i].topic) == shard::shard_of(topic)
                ==> intake::group_outcome(rows, items, times, shard::shard_of(topic), i) == Ok::<
                (Seq<char>, bool),
                StoreFault,
            >(#[trigger] results[i]),
    ensures
        ({
            let s = shard::shard_of(topic);
            let own = intake::group_after(rows, items, times, s, n)[s];
            let waits = messages::waiting_for(topic);
            &&& messages::count(own, waits) == messages::count(rows[s], waits) + news(
                items,
                results,
                topic,
                n,
            )
            &&& messages::count(own, held_for(topic)) == messages::count(
                rows[s],
                held_for(topic),
            )
        }),
    decreases n,
{
    if n > 0 {
        let s = shard::shard_of(topic);
        lemma_group_counts(rows, items, times, results, topic, n - 1);
        intake::lemma_group_grows(rows, items, times, s, 0, n - 1);
        if shard::shard_of(items[n - 1].topic) == s {
            assert(intake::group_outcome(rows, items, times, s, n - 1) == Ok::<
                (Seq<char>, bool),
                StoreFault,
            >(results[n - 1]));
            lemma_put_counts(
                intake::group_after(rows, items, times, s, n - 1),
                items[n - 1],
                times[n - 1],
                results[n - 1],
                topic,
            );
        }
    }
}

/// A shard is changed in its own turn alone.
proof fn lemma_own_turn(
    rows: Seq<db::Rows>,
    items: Seq<InputView>,
    times: Seq<Seq<char>>,
    m: int,
    n: int,
    s: int,
)
    requires
        rows.len() == MESSAGE_SHARDS,
        0 <= m <= n,
        0 <= s < MESSAGE_SHARDS,
        s < m || n <= s,
    ensures
        intake::shards_after(rows, items, times, n)[s] == intake::shards_after(
            rows,
            items,
            times,
            m,
        )[s],
    decreases n,
{
    if m < n {
        lemma_own_turn(rows, items, times, m, n - 1, s);
        intake::lemma_shards_grow(rows, items, times, 0, n - 1);
        intake::lemma_group_grows(
            intake::shards_after(rows, items, times, n - 1),
            items,
            times,
            n - 1,
            0,
            items.len() as int,
        );
    }
}

proof fn lemma_group_tidy(
    rows: Seq<db::Rows>,
    items: Seq<InputView>,
    times: Seq<Seq<char>>,
    s: int,
    n: int,
)
    requires
        tidy(rows),
        0 <= n <= items.len(),
        0 <= s < MESSAGE_SHARDS,
        fits(intake::group_after(rows, items, times, s, items.len() as int)),
        forall|i: int|
            0 <= i < items.len() ==> shard::shard_of_id((#[trigger] items[i]).id) == Some(
                shard::shard_of(items[i].topic),
            ),
    ensures
        tidy(intake::group_after(rows, items, times, s, n)),
    decreases n,
{
    if n > 0 {
        lemma_group_tidy(rows, items, times, s, n - 1);
        if shard::shard_of(items[n - 1].topic) == s {
            intake::lemma_group_grows(rows, items, times, s, n, items.len() as int);
            let all = intake::group_after(rows, items, times, s, items.len() as int);
            assert(all[s].len() <= i64::MAX);
            assert(shard::shard_of_id(items[n - 1].id) == Some(s));
            lemma_put_tidy(
                intake::group_after(rows, items, times, s, n - 1),
                items[n - 1],
                times[n - 1],
            );
        }
    }
}

proof fn lemma_shards_tidy(
    rows: Seq<db::Rows>,
    items: Seq<InputView>,
    times: Seq<Seq<char>>,
    n: int,
)
    requires
        tidy(rows),
        0 <= n <= MESSAGE_SHARDS,
        fits(intake::shards_after(rows, items, times, 16)),
        forall|i: int|
            0 <= i < items.len() ==> shard::shard_of_id((#[trigger] items[i]).id) == Some(
                shard::shard_of(items[i].topic),
            ),
    ensures
        tidy(intake::shards_after(rows, items, times, n)),
    decreases n,
{
    if n > 0 {
        lemma_shards_tidy(rows, items, times, n - 1);
        intake::lemma_shards_grow(rows, items, times, n, 16);
        let here = intake::shards_after(rows, items, times, n);
        let all = intake::shards_after(rows, items, times, 16);
        assert forall|k: int| 0 <= k < here.len() implies (#[trigger] here[k]).len()
            <= i64::MAX by {
            assert(all[k].len() <= i64::MAX);
        }
        lemma_group_tidy(
            intake::shards_after(rows, items, times, n - 1),
            items,
            times,
            n - 1,
            items.len() as int,
        );
    }
}

/// Storing a batch of messages, each under an identifier that names the shard of
/// its topic, keeps the store sound.
pub proof fn law_storing_a_batch_keeps_the_store_sound(
    before: Database,
    after: Database,
    items: Seq<InputView>,
    times: Seq<Seq<char>>,
    minute: Seq<char>,
    list: Vec<(String, bool)>,
)
    requires
        sound(before),
        fits(after.rows()),
        forall|i: int|
            0 <= i < items.len() ==> shard::shard_of_id((#[trigger] items[i]).id) == Some(
                shard::shard_of(items[i].topic),
            ),
        intake::batch_stored(before, after, items, times, minute, Ok(list)),
    ensures
        sound(after),
{
    let n = items.len() as int;
    let results = intake::result_views(list@);
    let rows = before.rows();
    assert(db::tally(after).shards == after.rows());
    assert(db::tally(after).depths == after.depths@);
    lemma_shards_tidy(rows, items, times, 16);
    assert forall|t: Seq<char>| #[trigger] depth_counts(after.rows(), after.depths@, t) by {
        assert(depth_counts(rows, before.depths@, t));
        shard::law_every_topic_has_a_shard(t);
        let s = shard::shard_of(t);
        let start = intake::shards_after(rows, items, times, s);
        intake::lemma_shards_grow(rows, items, times, 0, s);
        lemma_own_turn(rows, items, times, 0, s, s);
        lemma_own_turn(rows, items, times, s + 1, 16, s);
        assert forall|i: int|
            0 <= i < items.len() && shard::shard_of(items[i].topic) == s implies intake::group_outcome(
            start,
            items,
            times,
            s,
            i,
        ) == Ok::<(Seq<char>, bool), StoreFault>(#[trigger] results[i]) by {
            assert(intake::outcome(rows, items, times, i) == Ok::<(Seq<char>, bool), StoreFault>(
                results[i],
            ));
        }
        lemma_group_counts(start, items, times, results, t, n);
        lemma_count_bounds(rows[s], messages::waiting_for(t));
        lemma_count_bounds(rows[s], held_for(t));
        lemma_count_bounds(after.rows()[s], messages::waiting_for(t));
        assert(after.rows()[s].len() <= i64::MAX);
        lemma_all_counted(db::tally(before), items, results, minute, t, n);
    }
}

/// A message that has an idempotency key is the one that is found under it.
pub proof fn law_a_key_names_one_message(rows: Seq<db::Rows>, s: int, i: int, key: Seq<char>)
    requires
        tidy(rows),
        0 <= s < rows.len(),
        0 <= i < rows[s].len(),
        rows[s][i].idempotency_key == Some(key),
    ensures
        db::key_place(rows, key) == Some((s, i)),
{
    db::lemma_key_place(rows, key);
    match db::key_place(rows, key) {
        Some((t, j)) => {
            assert(rows[t][j].idempotency_key == rows[s][i].idempotency_key);
            if t < s {
                assert(apart(rows[t][j], rows[s][i]));
            } else if s < t {
                assert(apart(rows[s][i], rows[t][j]));
            } else {
                assert(messages::unique(rows[s]));
            }
        },
        None => {
            assert(rows[s][i].idempotency_key != Some(key));
        },
    }
}

/// As long as a message is stored, another one under its idempotency key is
/// answered with it, whatever its topic, and nothing is added or changed.
pub proof fn law_a_key_is_globally_unique(
    before: Database,
    after: Database,
    item: InputView,
    now: UtcTime,
    r: Result<(String, bool), StoreFault>,
    s: int,
    i: int,
)
    requires
        sound(before),
        0 <= s < MESSAGE_SHARDS,
        0 <= i < before.rows()[s].len(),
        item.idempotency_key is Some,
        before.rows()[s][i].idempotency_key == item.idempotency_key,
        intake::one_stored(before, after, item, now, r),
    ensures
        r matches Ok(found) && found.0@ == before.rows()[s][i].id && found.1,
        after.rows() == before.rows(),
{
    law_a_key_names_one_message(before.rows(), s, i, item.idempotency_key->0);
    intake::law_a_stored_key_is_found(before, after, item, now, r, s, i);
}

proof fn lemma_recalled(rows: Seq<db::Rows>, limit: usize, n: int, e: (int, Seq<char>, Seq<char>))
    requires
        tidy(rows),
        0 <= n <= rows.len(),
        paging::all_recalled(rows, limit, n).contains(e),
    ensures
        db::key_place(rows, e.1) matches Some((s, i)) && s == e.0 && rows[s][i].id == e.2,
    decreases n,
{
    let all = paging::all_recalled(rows, limit, n);
    let k = all.index_of(e);
    assert(all[k] == e);
    if n > 0 {
        let before = paging::all_recalled(rows, limit, n - 1);
        let own = paging::recalled_keys(rows[n - 1], n - 1, limit);
        if k < before.len() {
            assert(before[k] == e);
            lemma_recalled(rows, limit, n - 1, e);
        } else {
            let i = k - before.len();
            assert(own[i] == e);
            assert(messages::unique(rows[n - 1]));
            let place = paging::lemma_recalled_key(rows[n - 1], n - 1, limit, i);
            law_a_key_names_one_message(rows, n - 1, place, e.1);
        }
    }
}

/// A recalled key is found with the identifier with which it was recalled, and a
/// message under it is answered with that identifier, whatever its topic.
pub proof fn law_a_recalled_key_is_found(
    rows: Seq<db::Rows>,
    limit: usize,
    e: (int, Seq<char>, Seq<char>),
    item: InputView,
    now: Seq<char>,
)
    requires
        tidy(rows),
        paging::all_recalled(rows, limit, 16).contains(e),
        item.idempotency_key == Some(e.1),
    ensures
        intake::put(rows, item, now) == (
            Ok::<(Seq<char>, bool), StoreFault>((e.2, true)),
            rows,
        ),
{
    lemma_recalled(rows, limit, 16, e);
}

/// Once a message was stored anew, a worker that asks for its topic is handed a
/// message.
pub proof fn law_a_stored_message_can_be_claimed(
    before: Database,
    after: Database,
    item: InputView,
    now: UtcTime,
    got: (String, bool),
    later: Seq<char>,
)
    requires
        before.wf(),
        intake::one_stored(before, after, item, now, Ok(got)),
        !got.1,
        !text::text_less(later, clock::time_text(now)),
    ensures
        messages::claim_place(
            after.rows()[shard::shard_of(item.topic)],
            WantView::Topic(item.topic),
            later,
        ) is Some,
{
    reveal(messages::stored);
    shard::law_every_topic_has_a_shard(item.topic);
    let own = before.rows()[shard::shard_of(item.topic)];
    let m = messages::fresh_row(item, clock::time_text(now));
    assert(db::tally(after).shards == after.rows());
    let rows = after.rows()[shard::shard_of(item.topic)];
    assert(rows == own.push(m));
    messages::law_a_ready_message_is_claimed(
        rows,
        WantView::Topic(item.topic),
        later,
        rows.len() - 1,
    );
}

/// From the time at which a message was stored anew, a worker that asks for its
/// topic is handed a message.
pub proof fn law_a_stored_message_can_be_claimed_from_then_on(
    before: Database,
    after: Database,
    item: InputView,
    now: UtcTime,
    got: (String, bool),
    later: UtcTime,
)
    requires
        before.wf(),
        intake::one_stored(before, after, item, now, Ok(got)),
        !got.1,
        now.writable(),
        later.writable(),
        !later.is_before(now),
    ensures
        messages::claim_place(
            after.rows()[shard::shard_of(item.topic)],
            WantView::Topic(item.topic),
            clock::time_text(later),
        ) is Some,
{
    clock::law_texts_sort_as_times(now, later);
    law_a_stored_message_can_be_claimed(
        before,
        after,
        item,
        now,
        got,
        clock::time_text(later),
    );
}

// --------------------------------------------------------------- laws: starting

proof fn lemma_migrated(rows: Seq<db::Rows>, old: db::Rows, n: int)
    requires
        tidy(rows),
        0 <= n <= old.len(),
        fits(startup::migrated(rows, old, old.len() as int)),
        forall|i: int|
            0 <= i < old.len() ==> (shard::shard_of_id((#[trigger] old[i]).id) matches Some(k)
                ==> k == shard::shard_of(old[i].topic)),
    ensures
        tidy(startup::migrated(rows, old, n)),
    decreases n,
{
    if n > 0 {
        lemma_migrated(rows, old, n - 1);
        let init = startup::migrated(rows, old, n - 1);
        let m = startup::moved(old[n - 1]);
        let s = shard::shard_of(m.topic);
        shard::law_every_topic_has_a_shard(m.topic);
        if shard::shard_of_id(old[n - 1].id) is None {
            shard::law_marked_id_names_its_shard(s, old[n - 1].id);
        }
        lemma_migrated_grow(rows, old, n, old.len() as int, s);
        assert(startup::migrated(rows, old, old.len() as int)[s].len() <= i64::MAX);
        if startup::key_is_taken(init, m) || messages::clashes(init[s], m) {
            assert(startup::migrated(rows, old, n) =~= init);
        } else {
            lemma_tidy_push(init, m);
        }
    }
}

proof fn lemma_migrated_grow(rows: Seq<db::Rows>, old: db::Rows, n: int, m: int, s: int)
    requires
        rows.len() == MESSAGE_SHARDS,
        0 <= n <= m,
        0 <= s < rows.len(),
    ensures
        startup::migrated(rows, old, n).len() == rows.len(),
        startup::migrated(rows, old, m).len() == rows.len(),
        startup::migrated(rows, old, n)[s].len() <= startup::migrated(rows, old, m)[s].len(),
    decreases m,
{
    if n < m {
        lemma_migrated_grow(rows, old, n, m - 1, s);
        shard::law_every_topic_has_a_shard(startup::moved(old[m - 1]).topic);
    } else if m > 0 {
        lemma_migrated_grow(rows, old, m - 1, m - 1, s);
        shard::law_every_topic_has_a_shard(startup::moved(old[m - 1]).topic);
    }
}

/// A store is sound after a start, if its messages lay where they belong and the
/// identifiers of the old messages name no foreign shard.
pub proof fn law_a_started_store_is_sound(
    loaded: Database,
    old: db::Rows,
    copied: bool,
    now: Seq<char>,
    after: Database,
)
    requires
        tidy(loaded.rows()),
        fits(after.rows()),
        forall|i: int|
            0 <= i < old.len() ==> (shard::shard_of_id((#[trigger] old[i]).id) matches Some(k)
                ==> k == shard::shard_of(old[i].topic)),
        startup::started(loaded, old, copied, now, after),
    ensures
        sound(after),
{
    let pending = messages::changed(old, messages::in_hand(), messages::to_pending());
    let own = retention::changed_all(
        loaded.rows(),
        messages::in_hand(),
        messages::to_pending(),
    );
    lemma_tidy_changed_all(loaded.rows(), messages::in_hand(), messages::to_pending());
    if !copied {
        assert forall|i: int| 0 <= i < pending.len() implies (shard::shard_of_id(
            (#[trigger] pending[i]).id,
        ) matches Some(k) ==> k == shard::shard_of(pending[i].topic)) by {
            assert(pending[i].id == old[i].id);
            assert(pending[i].topic == old[i].topic);
        }
        lemma_migrated(own, pending, pending.len() as int);
    }
    law_fresh_depths_count_the_messages(after.rows());
}

/// An empty store is sound.
pub proof fn law_an_empty_store_is_sound(db: Database)
    requires
        db.wf(),
        forall|s: int| 0 <= s < MESSAGE_SHARDS ==> (#[trigger] db.rows()[s]).len() == 0,
        db.depths@ == Map::<Seq<char>, catalog::Depth>::empty(),
    ensures
        sound(db),
{
    assert forall|t: Seq<char>| #[trigger] depth_counts(db.rows(), db.depths@, t) by {
        shard::law_every_topic_has_a_shard(t);
        lemma_count_bounds(db.rows()[shard::shard_of(t)], messages::waiting_for(t));
        lemma_count_bounds(db.rows()[shard::shard_of(t)], held_for(t));
    }
}

// ------------------------------------------------------- laws: the broker's work

/// One delivery keeps the store sound.
pub proof fn law_a_delivery_keeps_the_store_sound(
    before: Database,
    after: Database,
    id: Seq<char>,
    lease: Seq<char>,
    ok: bool,
    now: UtcTime,
)
    requires
        sound(before),
        db::delivered_once(before, after, id, lease, ok, now),
    ensures
        sound(after),
{
    let t = db::tally(before);
    lemma_held_at(t.shards, id, lease);
    assert(db::tally(after).shards == after.rows());
    assert(db::tally(after).depths == after.depths@);
    match db::held_at(t.shards, id, lease) {
        None => {},
        Some(at) => lemma_row_changed(
            t.shards,
            t.depths,
            at,
            messages::as_delivered(t.shards[at.0][at.1], clock::time_text(now)),
            0,
            -1 as i64,
        ),
    }
}

proof fn lemma_claim_for_filter(
    before: Database,
    after: Database,
    filter: Seq<char>,
    now: UtcTime,
    visibility: u64,
    lease: Seq<char>,
    r: Result<Option<ClaimedMessage>, BadAttributes>,
)
    requires
        sound(before),
        queue::claimed_for_filter(before, after, filter, now, visibility, lease, r),
    ensures
        sound(after),
{
    let at = clock::time_text(now);
    let visible_again = queue::visible_text(now, visibility);
    if topic::wild(filter) {
        law_a_claim_anywhere_keeps_the_store_sound(
            before,
            after,
            WantView::Filter(filter),
            at,
            lease,
            visible_again,
            r,
        );
    } else {
        shard::law_every_topic_has_a_shard(filter);
        law_a_claim_keeps_the_store_sound(
            before,
            after,
            shard::shard_of(filter),
            WantView::Topic(filter),
            at,
            lease,
            visible_again,
            r,
        );
    }
}

/// Whatever happens to a subscription keeps the store sound.
pub proof fn law_a_subscription_keeps_the_store_sound(
    l: LoopView,
    before: Board,
    after: Board,
    phase: PhaseView,
    event: Event,
    now: UtcTime,
    fresh: Seq<char>,
    next: PhaseView,
    action: ActionView,
)
    requires
        sound(before.db),
        subscription::stepped(l, before, after, phase, event, now, fresh, next, action),
    ensures
        sound(after.db),
{
    match (phase, event) {
        (PhaseView::Turn, Event::Go { closing }) => {
            if closing {
                lemma_abandoned(l, before.db, after.db, after.live, now);
            } else {
                let (mid, got) = choose|
                    mid: Database,
                    got: Result<Option<ClaimedMessage>, BadAttributes>,
                | #[trigger]
                    queue::claimed_for_filter(
                        before.db,
                        mid,
                        l.topic,
                        now,
                        l.visibility,
                        fresh,
                        got,
                    ) && subscription::fetched(
                        l,
                        Board { db: mid, ..before },
                        after,
                        got,
                        now,
                        next,
                        action,
                    );
                lemma_claim_for_filter(
                    before.db,
                    mid,
                    l.topic,
                    now,
                    l.visibility,
                    fresh,
                    got,
                );
                assert(after.db.shards == mid.shards && after.db.depths == mid.depths);
            }
        },
        (PhaseView::Sending(d), Event::Go { .. }) => {
            if d.tried >= d.to.len() {
                let id = d.message.id;
                let lease = d.message.lease;
                if d.leases.len() == 0 {
                    if d.ephemeral {
                        let ok = choose|ok: bool| #[trigger]
                            queue::claimed_dropped(
                                before.db,
                                after.db,
                                id,
                                lease,
                                subscription::NOBODY_TOOK_IT@,
                                clock::time_text(now),
                                ok,
                            );
                        law_dropping_a_message_keeps_the_store_sound(
                            before.db,
                            after.db,
                            id,
                            lease,
                            subscription::NOBODY_TOOK_IT@,
                            clock::time_text(now),
                            ok,
                        );
                    } else {
                        lemma_marked_failed(
                            l,
                            before.db,
                            after.db,
                            d.message,
                            subscription::NOBODY_TOOK_IT@,
                            now,
                        );
                    }
                } else if d.ephemeral {
                    lemma_marked_delivered(before.db, after.db, d.message, now);
                }
            }
        },
        (PhaseView::Waiting(d, v), Event::Acked { ack, stopping }) => {
            let all = subscription::heard(v, ack);
            if stopping {
                lemma_abandoned(l, before.db, after.db, after.live, now);
            } else if all.heard >= d.leases.len() {
                if all.all_ok {
                    lemma_marked_delivered(before.db, after.db, d.message, now);
                } else {
                    lemma_marked_failed(
                        l,
                        before.db,
                        after.db,
                        d.message,
                        all.last_error,
                        now,
                    );
                }
            }
        },
        _ => {},
    }
}

proof fn lemma_marked_delivered(
    before: Database,
    after: Database,
    message: ClaimedView,
    now: UtcTime,
)
    requires
        sound(before),
        subscription::marked_delivered(before, after, message, now),
    ensures
        sound(after),
{
    let ok = choose|ok: bool| #[trigger]
        db::delivered_once(before, after, message.id, message.lease, ok, now);
    law_a_delivery_keeps_the_store_sound(before, after, message.id, message.lease, ok, now);
}

proof fn lemma_marked_failed(
    l: LoopView,
    before: Database,
    after: Database,
    message: ClaimedView,
    error: Seq<char>,
    now: UtcTime,
)
    requires
        sound(before),
        subscription::marked_failed(l, before, after, message, error, now),
    ensures
        sound(after),
{
    let ok = choose|ok: bool| #[trigger]
        queue::attempt_failed(
            before,
            after,
            message.id,
            message.lease,
            error,
            l.max_attempts,
            now,
            ok,
        );
    law_a_failure_keeps_the_store_sound(
        before,
        after,
        message.id,
        message.lease,
        error,
        l.max_attempts,
        now,
        ok,
    );
}

proof fn lemma_abandoned(
    l: LoopView,
    before: Database,
    after: Database,
    live: Live,
    now: UtcTime,
)
    requires
        sound(before),
        subscription::abandoned(l, before, after, live, now),
    ensures
        sound(after),
{
    if !topic::wild(l.topic) && !subscribers::covered(live, l.topic) {
        let at = clock::time_text(now);
        let ephemeral = db::config_of(before, l.topic).persistence == PersistenceMode::Ephemeral;
        let mid = choose|mid: Database| #[trigger]
            db::config_looked_up(before, mid, l.topic) && if ephemeral {
                exists|n: int| #[trigger] queue::pending_dropped(mid, after, l.topic, at, n)
            } else {
                after == mid
            };
        assert(sound(mid));
        if ephemeral {
            let n = choose|n: int| #[trigger]
                queue::pending_dropped(mid, after, l.topic, at, n);
            law_dropping_what_waits_keeps_the_store_sound(mid, after, l.topic, at, n);
        }
    }
}

/// Taking a message from a publisher keeps the store sound.
pub proof fn law_publishing_keeps_the_store_sound(
    before: Database,
    after: Database,
    live: Live,
    message: Publication,
    now: UtcTime,
    fresh: Seq<char>,
    r: Result<Intake, StoreFault>,
)
    requires
        sound(before),
        fits(after.rows()),
        delivery::taken_in(before, after, live, message, now, fresh, r),
    ensures
        sound(after),
{
    let config = db::config_of(before, message.topic);
    let mid = choose|mid: Database| #[trigger]
        db::config_looked_up(before, mid, message.topic) && (if config.persistence
            == PersistenceMode::Ephemeral {
            delivery::ephemeral_taken(mid, after, live, config.delivery, message, now, fresh, r)
        } else {
            delivery::persistent_taken(mid, after, message, now, fresh, r)
        });
    assert(sound(mid));
    if config.persistence != PersistenceMode::Ephemeral {
        let s = shard::shard_of(message.topic);
        let item = InputView {
            id: shard::shard_prefix(s) + fresh,
            idempotency_key: intake::usable_key(message.idempotency_key),
            topic: message.topic,
            payload: message.payload,
            attributes: json::object_text(message.attributes),
        };
        shard::law_every_topic_has_a_shard(message.topic);
        shard::law_marked_id_names_its_shard(s, fresh);
        match r {
            Ok(Intake::Done(Ingested::Queued { message_id, duplicate })) => {
                law_storing_keeps_the_store_sound(
                    mid,
                    after,
                    item,
                    now,
                    Ok((message_id, duplicate)),
                );
            },
            Ok(_) => {},
            Err(fault) => {
                law_storing_keeps_the_store_sound(mid, after, item, now, Err(fault));
            },
        }
    }
}

/// Fetching a message to be posted downstream keeps the store sound.
pub proof fn law_dispatching_keeps_the_store_sound(
    before: Database,
    after: Database,
    live: Live,
    visibility: u64,
    now: UtcTime,
    lease: Seq<char>,
    r: Option<ClaimedMessage>,
)
    requires
        sound(before),
        upkeep::dispatched(before, after, live, visibility, now, lease, r),
    ensures
        sound(after),
{
    let (skip, mid, got) = choose|
        skip: Seq<Seq<char>>,
        mid: Database,
        got: Result<Option<ClaimedMessage>, BadAttributes>,
    |
        #![trigger queue::claimed_excluding(before, mid, skip, now, visibility, lease, got)]
        {
            &&& queue::claimed_excluding(before, mid, skip, now, visibility, lease, got)
            &&& match got {
                Ok(Some(message)) => if subscribers::covered(live, message@.topic) {
                    &&& r is None
                    &&& exists|ok: bool| #[trigger]
                        queue::released(mid, after, message@.id, message@.lease, ok)
                } else {
                    after == mid
                },
                _ => after == mid,
            }
        };
    law_a_claim_anywhere_keeps_the_store_sound(
        before,
        mid,
        WantView::Excluding(skip),
        clock::time_text(now),
        lease,
        queue::visible_text(now, visibility),
        got,
    );
    match got {
        Ok(Some(message)) => {
            if subscribers::covered(live, message@.topic) {
                let ok = choose|ok: bool| #[trigger]
                    queue::released(mid, after, message@.id, message@.lease, ok);
                law_a_release_keeps_the_store_sound(
                    mid,
                    after,
                    message@.id,
                    message@.lease,
                    ok,
                );
            }
        },
        _ => {},
    }
}

proof fn lemma_unheard_dropped(
    before: Database,
    after: Database,
    live: Live,
    list: Seq<Seq<char>>,
    now: Seq<char>,
)
    requires
        sound(before),
        upkeep::unheard_dropped(before, after, live, list, now),
    ensures
        sound(after),
    decreases list.len(),
{
    if list.len() > 0 {
        let mid = choose|mid: Database|
            upkeep::unheard_dropped(before, mid, live, list.drop_last(), now)
                && #[trigger] upkeep::dropped_unless_heard(mid, after, live, list.last(), now);
        lemma_unheard_dropped(before, mid, live, list.drop_last(), now);
        if !subscribers::covered(live, list.last()) {
            let n = choose|n: int| #[trigger]
                queue::pending_dropped(mid, after, list.last(), now, n);
            law_dropping_what_waits_keeps_the_store_sound(mid, after, list.last(), now, n);
        }
    }
}

/// A sweep keeps the store sound.
pub proof fn law_a_sweep_keeps_the_store_sound(
    before: Database,
    after: Database,
    live: Live,
    config: Config,
    since: Option<u64>,
    now: UtcTime,
)
    requires
        sound(before),
        upkeep::sweep_done(before, after, live, config, since, now),
    ensures
        sound(after),
{
    let at = clock::time_text(now);
    let (n, first, list, a, b, c, d) = choose|
        n: u64,
        first: Database,
        list: Seq<Seq<char>>,
        a: Database,
        b: Database,
        c: Database,
        d: Database,
    |
        #![trigger retention::reclaimed(before, first, clock::time_text(now), n),
            upkeep::unheard_dropped(first, a, live, list, clock::time_text(now)),
            upkeep::old_purged(a, b, config, now),
            upkeep::delivered_purged(b, c, config, now),
            upkeep::idle_swept(c, d, live, config, since, now)]
        {
            &&& retention::reclaimed(before, first, clock::time_text(now), n)
            &&& upkeep::are_ephemeral(first, list)
            &&& upkeep::unheard_dropped(first, a, live, list, clock::time_text(now))
            &&& upkeep::old_purged(a, b, config, now)
            &&& upkeep::delivered_purged(b, c, config, now)
            &&& upkeep::idle_swept(c, d, live, config, since, now)
            &&& upkeep::consumers_swept(d, after, config, now)
        };
    law_reclaiming_keeps_the_store_sound(before, first, at, n);
    lemma_unheard_dropped(first, a, live, list, at);
    if config.message_retention_days > 0 {
        let cutoff = clock::time_text(
            upkeep::time_before(now, config.message_retention_days as int, 86400),
        );
        let k = choose|k: u64| #[trigger]
            retention::purged(a, b, messages::not_created_before(cutoff), true, k);
        law_purging_keeps_the_store_sound(a, b, cutoff, k);
    }
    if config.delivered_retention_hours > 0 {
        let cutoff = clock::time_text(
            upkeep::time_before(now, config.delivered_retention_hours as int, 3600),
        );
        let k = choose|k: u64| #[trigger]
            retention::purged(b, c, messages::not_delivered_before(cutoff), false, k);
        law_purging_delivered_keeps_the_store_sound(b, c, cutoff, k);
    }
    if upkeep::idle_due(config, since) {
        let cutoff = clock::time_text(
            upkeep::time_before(now, config.ephemeral_idle_hours as int, 3600),
        );
        let (keep, k) = choose|keep: Seq<Seq<char>>, k: usize|
            {
                &&& forall|t: Seq<char>| #[trigger] keep.contains(t) <==> live.contains_key(t)
                &&& #[trigger] retention::idle_purged(c, d, cutoff, keep, at, k)
            };
        law_forgetting_idle_topics_keeps_the_store_sound(c, d, cutoff, keep, at, k);
    }
}

} // verus!
