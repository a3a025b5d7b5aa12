//! What becomes of a message: how it is stored, handed out and settled, told in
//! the fields of the message and in the numbers that are kept of its topic.
use vstd::prelude::*;

use crate::bookkeeping;
use crate::catalog;
use crate::clock;
use crate::clock::UtcTime;
use crate::config::Config;
use crate::consumers;
use crate::db;
use crate::db::Database;
use crate::intake;
use crate::json;
use crate::messages;
use crate::messages::{InputView, MessageStatus, MessageView, WantView};
use crate::model::ClaimedMessage;
use crate::queue;
use crate::retention;
use crate::shard;
use crate::shard::MESSAGE_SHARDS;
use crate::subscribers;
use crate::subscribers::Live;
use crate::text;
use crate::topic;
use crate::upkeep;

verus! {

/// Whether there is a message at a place.
pub open spec fn is_place(rows: Seq<db::Rows>, s: int, i: int) -> bool {
    0 <= s < rows.len() && 0 <= i < rows[s].len()
}

/// Whether a worker holds the message at a place, under a lease.
pub open spec fn is_held(rows: Seq<db::Rows>, s: int, i: int, lease: Seq<char>) -> bool {
    &&& is_place(rows, s, i)
    &&& rows[s][i].status == MessageStatus::Processing
    &&& rows[s][i].lease == Some(lease)
}

/// Whether the messages are the same but for the one at a place.
pub open spec fn same_but(
    before: Seq<db::Rows>,
    after: Seq<db::Rows>,
    s: int,
    i: int,
) -> bool {
    &&& after.len() == before.len()
    &&& forall|t: int| 0 <= t < before.len() ==> (#[trigger] after[t]).len() == before[t].len()
    &&& forall|t: int, k: int|
        is_place(before, t, k) && (t != s || k != i) ==> #[trigger] after[t][k] == before[t][k]
}

/// Whether a message still says what its publisher said.
pub open spec fn same_content(a: MessageView, b: MessageView) -> bool {
    &&& a.id == b.id
    &&& a.idempotency_key == b.idempotency_key
    &&& a.topic == b.topic
    &&& a.payload == b.payload
    &&& a.attributes == b.attributes
    &&& a.created_at == b.created_at
}

/// A number of a topic: zero for a topic that is not in the catalogue.
pub open spec fn number_of(
    topics: catalog::Topics,
    topic: Seq<char>,
    field: spec_fn(catalog::TopicRowView) -> i64,
) -> int {
    if topics.contains_key(topic) {
        field(topics[topic]) as int
    } else {
        0
    }
}

/// Outstanding numbers of a topic, or of a minute: zero where nothing is noted.
pub open spec fn outstanding<V>(
    noted: Map<Seq<char>, V>,
    name: Seq<char>,
    field: spec_fn(V) -> i64,
) -> int {
    if noted.contains_key(name) {
        field(noted[name]) as int
    } else {
        0
    }
}

/// `n` more, as far as the counter goes.
pub open spec fn grown(before: int, n: int, after: int) -> bool {
    i64::MIN <= before + n <= i64::MAX ==> after == before + n
}

proof fn lemma_held(before: Database, s: int, i: int, lease: Seq<char>)
    requires
        bookkeeping::sound(before),
        is_held(before.rows(), s, i, lease),
    ensures
        db::held_at(before.rows(), before.rows()[s][i].id, lease) == Some((s, i)),
{
    let rows = before.rows();
    bookkeeping::lemma_home(rows, s, i);
    assert(messages::unique(rows[s]));
    messages::law_only_the_lease_holder_settles(rows[s], i, lease, lease);
}

// -------------------------------------------------------------------- settling

/// Who settles a message has to name its identifier and the lease under which it
/// is held: then the message is found, and else none is.
pub proof fn law_a_message_is_settled_by_identifier_and_lease(
    db: Database,
    id: Seq<char>,
    lease: Seq<char>,
)
    requires
        bookkeeping::sound(db),
    ensures
        db::held_at(db.rows(), id, lease) matches Some(at) ==> is_held(
            db.rows(),
            at.0,
            at.1,
            lease,
        ) && db.rows()[at.0][at.1].id == id,
        db::held_at(db.rows(), id, lease) is None ==> forall|s: int, i: int|
            is_held(db.rows(), s, i, lease) ==> (#[trigger] db.rows()[s][i]).id != id,
{
    bookkeeping::lemma_held_at(db.rows(), id, lease);
    if db::held_at(db.rows(), id, lease) is None {
        assert forall|s: int, i: int| is_held(db.rows(), s, i, lease) implies (
        #[trigger] db.rows()[s][i]).id != id by {
            if db.rows()[s][i].id == id {
                lemma_held(db, s, i, lease);
            }
        }
    }
}

/// After a failed attempt a message is given up for good exactly if it has been
/// attempted as often as is allowed. Else it waits, and is ready again exactly
/// when its delay has passed. It says why it failed, and nobody holds it.
pub proof fn law_a_message_fails_for_good_at_its_limit(
    before: Database,
    after: Database,
    s: int,
    i: int,
    lease: Seq<char>,
    error: Seq<char>,
    max_attempts: i64,
    then: UtcTime,
    ok: bool,
    now: UtcTime,
)
    requires
        bookkeeping::sound(before),
        is_held(before.rows(), s, i, lease),
        queue::attempt_failed(
            before,
            after,
            before.rows()[s][i].id,
            lease,
            error,
            max_attempts,
            then,
            ok,
        ),
    ensures
        ok,
        same_but(before.rows(), after.rows(), s, i),
        ({
            let old = before.rows()[s][i];
            let new = after.rows()[s][i];
            let due = clock::time_after(then, queue::retry_delay(old.attempts));
            &&& same_content(new, old)
            &&& new.attempts == old.attempts
            &&& new.last_error == Some(error)
            &&& new.lease is None
            &&& new.delivered_at == old.delivered_at
            &&& new.status == MessageStatus::Failed <==> old.attempts >= max_attempts
            &&& new.status == MessageStatus::Pending <==> old.attempts < max_attempts
            &&& due.writable() && now.writable() ==> (messages::ready(new, clock::time_text(now))
                <==> old.attempts < max_attempts && !now.is_before(due))
            &&& old.attempts >= max_attempts ==> grown(
                number_of(before.topics@, old.topic, |t: catalog::TopicRowView| t.failed),
                1,
                number_of(after.topics@, old.topic, |t: catalog::TopicRowView| t.failed),
            )
            &&& old.attempts < max_attempts ==> after.topics@ == before.topics@
        }),
{
    lemma_held(before, s, i, lease);
    let old = before.rows()[s][i];
    let due = clock::time_after(then, queue::retry_delay(old.attempts));
    if due.writable() && now.writable() {
        clock::law_texts_sort_as_times(due, now);
    }
}

/// The delay before the next attempt is a second at first and twice as long after
/// each further attempt, up to the eighth. It never exceeds five minutes.
pub proof fn law_the_delay_doubles(attempts: i64)
    ensures
        queue::retry_delay(0) == 1,
        0 <= attempts < 8 ==> queue::retry_delay((attempts + 1) as i64) == 2 * queue::retry_delay(
            attempts,
        ),
        attempts >= 8 ==> queue::retry_delay(attempts) == 256,
        attempts < 0 ==> queue::retry_delay(attempts) == 300,
        1 <= queue::retry_delay(attempts) <= 300,
{
    reveal_with_fuel(queue::power_of_two, 10);
}

/// A delivered message says when it was delivered and is nobody's any more; it is
/// counted for its topic and for the minute.
pub proof fn law_a_delivered_message_is_done(
    before: Database,
    after: Database,
    s: int,
    i: int,
    lease: Seq<char>,
    now: UtcTime,
    ok: bool,
    want: WantView,
    later: Seq<char>,
)
    requires
        bookkeeping::sound(before),
        is_held(before.rows(), s, i, lease),
        db::delivered_once(before, after, before.rows()[s][i].id, lease, ok, now),
    ensures
        ok,
        same_but(before.rows(), after.rows(), s, i),
        ({
            let old = before.rows()[s][i];
            let new = after.rows()[s][i];
            let minute = clock::minute_text(now);
            &&& same_content(new, old)
            &&& new.attempts == old.attempts
            &&& new.status == MessageStatus::Delivered
            &&& new.delivered_at == Some(clock::time_text(now))
            &&& new.last_error is None
            &&& new.lease is None
            &&& messages::claim_place(after.rows()[s], want, later) != Some(i)
            &&& grown(
                outstanding(before.stats@, old.topic, |t: catalog::TopicStatsDelta| t.delivered),
                1,
                outstanding(after.stats@, old.topic, |t: catalog::TopicStatsDelta| t.delivered),
            )
            &&& grown(
                outstanding(before.stats@, old.topic, |t: catalog::TopicStatsDelta| t.accepted),
                0,
                outstanding(after.stats@, old.topic, |t: catalog::TopicStatsDelta| t.accepted),
            )
            &&& grown(
                outstanding(
                    before.trend_deltas@,
                    minute,
                    |t: catalog::MessageTrendDelta| t.delivered,
                ),
                1,
                outstanding(
                    after.trend_deltas@,
                    minute,
                    |t: catalog::MessageTrendDelta| t.delivered,
                ),
            )
        }),
{
    lemma_held(before, s, i, lease);
    assert(db::tally(after).shards == after.rows());
    assert(db::tally(after).stats == after.stats@);
    assert(db::tally(after).trends == after.trend_deltas@);
    messages::lemma_oldest_place(after.rows()[s], messages::claimable(want, later));
}

/// A released message waits again, as it was, and nobody holds it.
pub proof fn law_a_released_message_waits_again(
    before: Database,
    after: Database,
    s: int,
    i: int,
    lease: Seq<char>,
    ok: bool,
)
    requires
        bookkeeping::sound(before),
        is_held(before.rows(), s, i, lease),
        queue::released(before, after, before.rows()[s][i].id, lease, ok),
    ensures
        ok,
        same_but(before.rows(), after.rows(), s, i),
        ({
            let old = before.rows()[s][i];
            let new = after.rows()[s][i];
            &&& same_content(new, old)
            &&& new.status == MessageStatus::Pending
            &&& new.lease is None
            &&& new.attempts == old.attempts
            &&& new.next_attempt_at == old.next_attempt_at
            &&& new.last_error == old.last_error
            &&& new.delivered_at == old.delivered_at
        }),
{
    lemma_held(before, s, i, lease);
}

/// A message that is dropped while a worker holds it says why, is not handed out
/// again, and is counted as dropped.
pub proof fn law_a_dropped_message_is_done(
    before: Database,
    after: Database,
    s: int,
    i: int,
    lease: Seq<char>,
    error: Seq<char>,
    now: Seq<char>,
    ok: bool,
)
    requires
        bookkeeping::sound(before),
        is_held(before.rows(), s, i, lease),
        queue::claimed_dropped(before, after, before.rows()[s][i].id, lease, error, now, ok),
    ensures
        ok,
        same_but(before.rows(), after.rows(), s, i),
        ({
            let old = before.rows()[s][i];
            let new = after.rows()[s][i];
            &&& same_content(new, old)
            &&& new.status == MessageStatus::Dropped
            &&& new.lease is None
            &&& new.last_error == Some(error)
            &&& new.attempts == old.attempts
            &&& grown(
                number_of(before.topics@, old.topic, |t: catalog::TopicRowView| t.dropped),
                1,
                number_of(after.topics@, old.topic, |t: catalog::TopicRowView| t.dropped),
            )
            &&& after.topics@[old.topic].last_seen_at == Some(now)
        }),
{
    lemma_held(before, s, i, lease);
}

/// Where nobody holds a message under the identifier and the lease, settling it
/// changes no message and is answered so.
pub proof fn law_settling_without_the_lease_changes_nothing(
    before: Database,
    after: Database,
    id: Seq<char>,
    lease: Seq<char>,
    error: Seq<char>,
    max_attempts: i64,
    now: UtcTime,
    ok: bool,
)
    requires
        bookkeeping::sound(before),
        forall|s: int, i: int|
            is_held(before.rows(), s, i, lease) ==> (#[trigger] before.rows()[s][i]).id != id,
        db::delivered_once(before, after, id, lease, ok, now) || queue::released(
            before,
            after,
            id,
            lease,
            ok,
        ) || queue::attempt_failed(before, after, id, lease, error, max_attempts, now, ok)
            || queue::claimed_dropped(
            before,
            after,
            id,
            lease,
            error,
            clock::time_text(now),
            ok,
        ),
    ensures
        !ok,
        after.rows() == before.rows(),
        after.depths@ == before.depths@,
        after.topics@ == before.topics@,
        after.stats@ == before.stats@,
{
    law_a_message_is_settled_by_identifier_and_lease(before, id, lease);
    assert(db::tally(after).shards == after.rows());
    assert(db::tally(before).shards == before.rows());
    assert(db::tally(after).depths == after.depths@);
    assert(db::tally(after).stats == after.stats@);
}

// -------------------------------------------------------------------- claiming

/// Whether a worker may get a message: it waits, its time has come, and its topic
/// is one that the worker asks for.
pub open spec fn may_be_claimed(m: MessageView, want: WantView, now: Seq<char>) -> bool {
    &&& m.status == MessageStatus::Pending
    &&& m.next_attempt_at == now || text::text_less(m.next_attempt_at, now)
    &&& match want {
        WantView::Topic(name) => m.topic == name,
        WantView::Filter(filter) => topic::selects(filter, m.topic),
        WantView::Excluding(names) => !names.contains(m.topic),
    }
}

/// A worker gets a message that it may get, the oldest of them, with what its
/// publisher said. It is one attempt more, and is the worker's under the lease
/// until its time ends; no other message changes.
pub proof fn law_a_worker_gets_the_oldest_message(
    before: Database,
    after: Database,
    s: int,
    want: WantView,
    now: Seq<char>,
    lease: Seq<char>,
    visible_again: Seq<char>,
    m: ClaimedMessage,
)
    requires
        before.wf(),
        0 <= s < MESSAGE_SHARDS,
        queue::claimed_on(before, after, s, want, now, lease, visible_again, Ok(Some(m))),
    ensures
        exists|i: int|
            {
                &&& #[trigger] is_place(before.rows(), s, i)
                &&& same_but(before.rows(), after.rows(), s, i)
                &&& may_be_claimed(before.rows()[s][i], want, now)
                &&& same_content(after.rows()[s][i], before.rows()[s][i])
                &&& after.rows()[s][i].status == MessageStatus::Processing
                &&& after.rows()[s][i].lease == Some(lease)
                &&& after.rows()[s][i].next_attempt_at == visible_again
                &&& grown(before.rows()[s][i].attempts as int, 1, after.rows()[s][i].attempts as int)
                &&& m@.id == before.rows()[s][i].id
                &&& m@.topic == before.rows()[s][i].topic
                &&& m@.payload == before.rows()[s][i].payload
                &&& m@.attributes == before.rows()[s][i].attributes
                &&& m@.created_at == before.rows()[s][i].created_at
                &&& m@.lease == lease
                &&& forall|k: int|
                    0 <= k < before.rows()[s].len() && may_be_claimed(
                        #[trigger] before.rows()[s][k],
                        want,
                        now,
                    ) ==> !text::text_less(
                        before.rows()[s][k].created_at,
                        before.rows()[s][i].created_at,
                    )
            },
{
    let rows = before.rows()[s];
    let i = messages::claim_place(rows, want, now)->0;
    messages::lemma_oldest_place(rows, messages::claimable(want, now));
    assert(is_place(before.rows(), s, i));
    text::lemma_text_less_order(rows[i].next_attempt_at, now, now);
    assert forall|k: int|
        0 <= k < rows.len() && may_be_claimed(
            #[trigger] rows[k],
            want,
            now,
        ) implies !text::text_less(rows[k].created_at, rows[i].created_at) by {
        text::lemma_text_less_order(rows[k].next_attempt_at, now, now);
        assert(messages::claimable(want, now)(rows[k]));
        text::lemma_text_less_order(rows[k].created_at, rows[i].created_at, now);
    }
    assert(same_but(before.rows(), after.rows(), s, i));
}

/// A worker that asks for a topic, or for all but some, gets nothing only where
/// there is no message for it; one that asks with a filter, only where there is
/// none or where sixty-four other messages that are ready come before.
pub proof fn law_a_worker_gets_nothing_where_nothing_is_ready(
    before: Database,
    after: Database,
    s: int,
    want: WantView,
    now: Seq<char>,
    lease: Seq<char>,
    visible_again: Seq<char>,
    k: int,
)
    requires
        before.wf(),
        0 <= s < MESSAGE_SHARDS,
        queue::claimed_on(before, after, s, want, now, lease, visible_again, Ok(None)),
        is_place(before.rows(), s, k),
        may_be_claimed(before.rows()[s][k], want, now),
    ensures
        want is Filter,
        messages::ahead(before.rows()[s], now, k, before.rows()[s].len() as int) >= 64,
        after.rows() == before.rows(),
{
    let rows = before.rows()[s];
    text::lemma_text_less_order(rows[k].next_attempt_at, now, now);
    assert(messages::claimable(want, now)(rows[k]));
    if !(want is Filter) || messages::ahead(rows, now, k, rows.len() as int) < 64 {
        messages::law_a_ready_message_is_claimed(rows, want, now, k);
    }
}

/// A worker that asks with a filter gets a message only if fewer than sixty-four
/// messages that are ready come before it.
pub proof fn law_a_filter_looks_at_sixty_four_messages(
    rows: db::Rows,
    filter: Seq<char>,
    now: Seq<char>,
    i: int,
)
    requires
        messages::claim_place(rows, WantView::Filter(filter), now) == Some(i),
    ensures
        messages::ahead(rows, now, i, rows.len() as int) < 64,
{
}

/// A claim lasts as many seconds as were asked for, where a duration can hold
/// them.
pub proof fn law_a_claim_lasts_as_long_as_asked(visibility: u64)
    requires
        visibility <= i64::MAX / 1000,
    ensures
        queue::visible_seconds(visibility) == visibility,
{
}

/// A claim over all shards looks at every one of them, beginning with the one
/// whose turn it is, and the next claim begins one further on.
pub proof fn law_claims_go_round_the_shards(
    before: Database,
    after: Database,
    want: WantView,
    now: Seq<char>,
    lease: Seq<char>,
    visible_again: Seq<char>,
    s: int,
)
    requires
        before.wf(),
        queue::claimed_anywhere(before, after, want, now, lease, visible_again, Ok(None)),
        0 <= s < MESSAGE_SHARDS,
    ensures
        messages::claim_place(before.rows()[s], want, now) is None,
        after.rows() == before.rows(),
        before.cursor < usize::MAX ==> after.cursor == before.cursor + 1,
{
    let start = before.cursor as int % 16;
    let n = if s >= start {
        s - start
    } else {
        s + 16 - start
    };
    assert(queue::nth_shard(start, n) == s);
    let moved = Database { cursor: queue::advanced(before.cursor), ..before };
    assert(moved.rows() == before.rows());
    lemma_none_serves(before.rows(), want, now, start, 16, n);
    if let Some(k) = queue::serving_shard(before.rows(), want, now, start, 16) {
        lemma_serves(before.rows(), want, now, start, 16);
    }
}

proof fn lemma_none_serves(
    rows: Seq<db::Rows>,
    want: WantView,
    now: Seq<char>,
    start: int,
    n: int,
    k: int,
)
    requires
        0 <= k < n,
    ensures
        queue::serving_shard(rows, want, now, start, n) is None ==> messages::claim_place(
            rows[queue::nth_shard(start, k)],
            want,
            now,
        ) is None,
    decreases n,
{
    if k < n - 1 {
        lemma_none_serves(rows, want, now, start, n - 1, k);
    }
}

proof fn lemma_serves(rows: Seq<db::Rows>, want: WantView, now: Seq<char>, start: int, n: int)
    ensures
        queue::serving_shard(rows, want, now, start, n) matches Some(s) ==> messages::claim_place(
            rows[s],
            want,
            now,
        ) is Some,
    decreases n,
{
    if n > 0 {
        lemma_serves(rows, want, now, start, n - 1);
    }
}

/// A filter without a wildcard asks for the one topic of that name, and one with a
/// wildcard for every topic that it selects.
pub proof fn law_a_subscription_asks_for_its_topics(
    before: Database,
    after: Database,
    filter: Seq<char>,
    now: UtcTime,
    visibility: u64,
    lease: Seq<char>,
    m: ClaimedMessage,
)
    requires
        before.wf(),
        queue::claimed_for_filter(before, after, filter, now, visibility, lease, Ok(Some(m))),
    ensures
        filter.contains('+') || filter.contains('#') ==> topic::selects(filter, m@.topic),
        !filter.contains('+') && !filter.contains('#') ==> m@.topic == filter,
        m@.lease == lease,
{
    let at = clock::time_text(now);
    if topic::wild(filter) {
        let start = before.cursor as int % 16;
        lemma_serves(before.rows(), WantView::Filter(filter), at, start, 16);
        let s = queue::serving_shard(before.rows(), WantView::Filter(filter), at, start, 16)->0;
        messages::lemma_oldest_place(
            before.rows()[s],
            messages::claimable(WantView::Filter(filter), at),
        );
    } else {
        messages::lemma_oldest_place(
            before.rows()[shard::shard_of(filter)],
            messages::claimable(WantView::Topic(filter), at),
        );
    }
}

/// A worker that leaves topics out gets no message of them.
pub proof fn law_topics_left_out_are_not_handed_out(
    before: Database,
    after: Database,
    skip: Seq<Seq<char>>,
    now: UtcTime,
    visibility: u64,
    lease: Seq<char>,
    m: ClaimedMessage,
)
    requires
        before.wf(),
        queue::claimed_excluding(before, after, skip, now, visibility, lease, Ok(Some(m))),
    ensures
        !skip.contains(m@.topic),
        m@.lease == lease,
{
    let at = clock::time_text(now);
    let start = before.cursor as int % 16;
    let want = WantView::Excluding(skip);
    lemma_serves(before.rows(), want, at, start, 16);
    let s = queue::serving_shard(before.rows(), want, at, start, 16)->0;
    messages::lemma_oldest_place(before.rows()[s], messages::claimable(want, at));
}

// --------------------------------------------------------------------- storing

/// A message that is stored anew lies behind the others in the shard of its
/// topic, with all that its publisher said, not attempted yet and ready at once.
/// No other message changes, and it is counted as accepted.
pub proof fn law_a_new_message_is_stored_whole(
    before: Database,
    after: Database,
    item: InputView,
    now: UtcTime,
    got: (String, bool),
)
    requires
        before.wf(),
        intake::one_stored(before, after, item, now, Ok(got)),
        !got.1,
    ensures
        got.0@ == item.id,
        ({
            let s = shard::shard_of(item.topic);
            let own = after.rows()[s];
            let m = own.last();
            let minute = clock::minute_text(now);
            &&& own.len() == before.rows()[s].len() + 1
            &&& own.drop_last() == before.rows()[s]
            &&& forall|t: int|
                0 <= t < MESSAGE_SHARDS && t != s ==> #[trigger] after.rows()[t]
                    == before.rows()[t]
            &&& m.id == item.id
            &&& m.idempotency_key == item.idempotency_key
            &&& m.topic == item.topic
            &&& m.payload == item.payload
            &&& m.attributes == item.attributes
            &&& m.created_at == clock::time_text(now)
            &&& m.next_attempt_at == clock::time_text(now)
            &&& m.status == MessageStatus::Pending
            &&& m.attempts == 0
            &&& m.last_error is None
            &&& m.delivered_at is None
            &&& m.lease is None
            &&& grown(
                outstanding(before.stats@, item.topic, |t: catalog::TopicStatsDelta| t.accepted),
                1,
                outstanding(after.stats@, item.topic, |t: catalog::TopicStatsDelta| t.accepted),
            )
            &&& grown(
                outstanding(before.stats@, item.topic, |t: catalog::TopicStatsDelta| t.duplicates),
                0,
                outstanding(after.stats@, item.topic, |t: catalog::TopicStatsDelta| t.duplicates),
            )
            &&& grown(
                outstanding(
                    before.trend_deltas@,
                    minute,
                    |t: catalog::MessageTrendDelta| t.accepted,
                ),
                1,
                outstanding(
                    after.trend_deltas@,
                    minute,
                    |t: catalog::MessageTrendDelta| t.accepted,
                ),
            )
        }),
{
    reveal(messages::stored);
    shard::law_every_topic_has_a_shard(item.topic);
    assert(db::tally(after).shards == after.rows());
    assert(db::tally(after).stats == after.stats@);
    assert(db::tally(after).trends == after.trend_deltas@);
    let s = shard::shard_of(item.topic);
    let own = before.rows()[s];
    assert(after.rows()[s].drop_last() =~= own);
}

/// A message whose idempotency key is there already changes no message; it is
/// counted as a duplicate, and not as accepted.
pub proof fn law_a_duplicate_is_counted_and_not_stored(
    before: Database,
    after: Database,
    item: InputView,
    now: UtcTime,
    got: (String, bool),
)
    requires
        before.wf(),
        intake::one_stored(before, after, item, now, Ok(got)),
        got.1,
    ensures
        after.rows() == before.rows(),
        item.idempotency_key is Some,
        intake::is_stored(before.rows(), got.0@),
        after.trend_deltas@ == before.trend_deltas@,
        grown(
            outstanding(before.stats@, item.topic, |t: catalog::TopicStatsDelta| t.duplicates),
            1,
            outstanding(after.stats@, item.topic, |t: catalog::TopicStatsDelta| t.duplicates),
        ),
        grown(
            outstanding(before.stats@, item.topic, |t: catalog::TopicStatsDelta| t.accepted),
            0,
            outstanding(after.stats@, item.topic, |t: catalog::TopicStatsDelta| t.accepted),
        ),
{
    reveal(messages::stored);
    shard::law_every_topic_has_a_shard(item.topic);
    assert(db::tally(after).shards == after.rows());
    assert(db::tally(after).stats == after.stats@);
    assert(db::tally(after).trends == after.trend_deltas@);
    let s = shard::shard_of(item.topic);
    let rows = before.rows();
    match intake::known_place(rows, item) {
        Some((t, i)) => {
            db::lemma_key_place(rows, item.idempotency_key->0);
            assert(rows[t][i].id == got.0@);
        },
        None => {
            let key = item.idempotency_key->0;
            messages::lemma_first_place(rows[s], messages::has_key(key));
            let i = messages::first_place(rows[s], messages::has_key(key))->0;
            assert(rows[s][i].id == got.0@);
            assert(rows.update(s, rows[s]) =~= rows);
        },
    }
}

/// A message is refused only under an identifier that is taken, and then nothing
/// changes.
pub proof fn law_only_a_taken_identifier_is_refused(
    before: Database,
    after: Database,
    item: InputView,
    now: UtcTime,
    fault: messages::StoreFault,
)
    requires
        before.wf(),
        intake::one_stored(before, after, item, now, Err(fault)),
    ensures
        intake::is_stored(before.rows(), item.id),
        after.rows() == before.rows(),
        after.stats@ == before.stats@,
        after.depths@ == before.depths@,
        after.trend_deltas@ == before.trend_deltas@,
{
    let s = shard::shard_of(item.topic);
    shard::law_every_topic_has_a_shard(item.topic);
    let rows = before.rows();
    if forall|i: int| 0 <= i < rows[s].len() ==> (#[trigger] rows[s][i]).id != item.id {
        intake::law_a_free_identifier_never_fails(rows, item, clock::time_text(now));
    }
    let i = choose|i: int| 0 <= i < rows[s].len() && (#[trigger] rows[s][i]).id == item.id;
    assert(rows[s][i].id == item.id);
}

/// An idempotency key that is empty counts as none, and every other one as it is.
pub proof fn law_an_empty_key_is_none(key: Seq<char>)
    ensures
        intake::usable_key(None) is None,
        key.len() == 0 ==> intake::usable_key(Some(key)) is None,
        key.len() > 0 ==> intake::usable_key(Some(key)) == Some(key),
{
}

/// A message that goes to live subscribers only, or to nobody, is stored nowhere.
/// It is counted as accepted, and as delivered or dropped.
pub proof fn law_a_live_message_is_only_counted(
    before: Database,
    after: Database,
    name: Seq<char>,
    delivered: i64,
    dropped: i64,
    now: UtcTime,
)
    requires
        intake::live_only(before, after, name, delivered, dropped, now),
        0 <= delivered <= 1,
        dropped == 1 - delivered,
    ensures
        after.rows() == before.rows(),
        after.depths@ == before.depths@,
        grown(
            number_of(before.topics@, name, |t: catalog::TopicRowView| t.accepted),
            1,
            number_of(after.topics@, name, |t: catalog::TopicRowView| t.accepted),
        ),
        grown(
            number_of(before.topics@, name, |t: catalog::TopicRowView| t.delivered),
            delivered as int,
            number_of(after.topics@, name, |t: catalog::TopicRowView| t.delivered),
        ),
        grown(
            number_of(before.topics@, name, |t: catalog::TopicRowView| t.dropped),
            dropped as int,
            number_of(after.topics@, name, |t: catalog::TopicRowView| t.dropped),
        ),
        number_of(after.topics@, name, |t: catalog::TopicRowView| t.failed) == number_of(
            before.topics@,
            name,
            |t: catalog::TopicRowView| t.failed,
        ),
        after.topics@[name].last_seen_at == Some(clock::time_text(now)),
        grown(
            outstanding(
                before.trend_deltas@,
                clock::minute_text(now),
                |t: catalog::MessageTrendDelta| t.accepted,
            ),
            1,
            outstanding(
                after.trend_deltas@,
                clock::minute_text(now),
                |t: catalog::MessageTrendDelta| t.accepted,
            ),
        ),
        grown(
            outstanding(
                before.trend_deltas@,
                clock::minute_text(now),
                |t: catalog::MessageTrendDelta| t.delivered,
            ),
            delivered as int,
            outstanding(
                after.trend_deltas@,
                clock::minute_text(now),
                |t: catalog::MessageTrendDelta| t.delivered,
            ),
        ),
        forall|other: Seq<char>|
            other != name && before.topics@.contains_key(other) ==> after.topics@[other]
                == #[trigger] before.topics@[other],
{
}

// -------------------------------------------------------------------- clearing

/// Dropping what waits for a topic drops every message of the topic that waits,
/// for want of a subscriber, and touches no other.
pub proof fn law_dropping_what_waits_drops_all_of_it(
    before: Database,
    after: Database,
    name: Seq<char>,
    now: Seq<char>,
    dropped: int,
    s: int,
    i: int,
)
    requires
        bookkeeping::sound(before),
        queue::pending_dropped(before, after, name, now, dropped),
        is_place(before.rows(), s, i),
    ensures
        is_place(after.rows(), s, i),
        ({
            let old = before.rows()[s][i];
            let new = after.rows()[s][i];
            let hit = old.topic == name && old.status == MessageStatus::Pending;
            &&& same_content(new, old)
            &&& !hit ==> new == old
            &&& hit ==> new.status == MessageStatus::Dropped && new.last_error == Some(
                "no live subscriber"@,
            ) && new.lease is None && dropped > 0
        }),
        dropped <= i64::MAX ==> grown(
            number_of(before.topics@, name, |t: catalog::TopicRowView| t.dropped),
            dropped,
            number_of(after.topics@, name, |t: catalog::TopicRowView| t.dropped),
        ),
{
    shard::law_every_topic_has_a_shard(name);
    let old = before.rows()[s][i];
    assert(bookkeeping::belongs(old, s));
    let rows = before.rows()[shard::shard_of(name)];
    let pred = messages::waiting_for(name);
    messages::lemma_kept_from(rows, pred);
    if old.topic == name && old.status == MessageStatus::Pending {
        messages::lemma_kept_all(rows, pred);
        assert(rows.contains(old));
        assert(messages::kept(rows, pred).contains(old));
    }
}

/// Clearing by a filter deletes the messages whose topic it picks, all of them and
/// no other: those that it selects if it has a wildcard, else those of its name.
pub proof fn law_clearing_deletes_what_the_filter_picks(
    before: Database,
    after: Database,
    filter: Seq<char>,
    now: Seq<char>,
    n: u64,
    s: int,
    m: MessageView,
)
    requires
        bookkeeping::sound(before),
        retention::cleared(before, after, filter, now, n),
        0 <= s < MESSAGE_SHARDS,
        before.rows()[s].contains(m),
    ensures
        filter.contains('+') || filter.contains('#') ==> (after.rows()[s].contains(m)
            <==> !topic::selects(filter, m.topic)),
        !filter.contains('+') && !filter.contains('#') ==> (after.rows()[s].contains(m)
            <==> m.topic != filter),
{
    let pred = messages::not_picked(filter);
    let rows = before.rows()[s];
    shard::law_every_topic_has_a_shard(filter);
    let i = rows.index_of(m);
    assert(bookkeeping::belongs(before.rows()[s][i], s));
    messages::lemma_kept_all(rows, pred);
    messages::lemma_kept_from(rows, pred);
    if topic::wild(filter) || s == shard::shard_of(filter) {
        assert(after.rows()[s] == messages::kept(rows, pred));
    } else {
        assert(after.rows()[s] == rows);
    }
}

/// Clearing by a filter sets the numbers of the topics that it picks to zero, and
/// leaves those of every other topic, with what is outstanding added.
pub proof fn law_clearing_resets_the_numbers(
    before: Database,
    after: Database,
    filter: Seq<char>,
    now: Seq<char>,
    n: u64,
    name: Seq<char>,
)
    requires
        retention::cleared(before, after, filter, now, n),
        after.topics@.contains_key(name),
    ensures
        ({
            let row = after.topics@[name];
            if name == filter || topic::selects(filter, name) {
                &&& row.accepted == 0
                &&& row.duplicates == 0
                &&& row.delivered == 0
                &&& row.failed == 0
                &&& row.dropped == 0
                &&& row.pending == 0
                &&& row.processing == 0
            } else {
                row == db::topics_flushed(before, now)[name]
            }
        }),
{
}

proof fn lemma_loss(rows: Seq<db::Rows>, pred: spec_fn(MessageView) -> bool)
    ensures
        retention::loss_all(rows, pred) == db::stored_in(rows) - db::stored_in(
            retention::kept_all(rows, pred),
        ),
        0 <= retention::loss_all(rows, pred),
    decreases rows.len(),
{
    let all = retention::kept_all(rows, pred);
    if rows.len() > 0 {
        let init = rows.drop_last();
        lemma_loss(init, pred);
        assert(all.drop_last() =~= retention::kept_all(init, pred));
        messages::lemma_kept_from(rows.last(), pred);
    }
}

/// A purge says how many messages it has deleted.
pub proof fn law_a_purge_counts_what_it_deletes(
    before: Database,
    after: Database,
    pred: spec_fn(MessageView) -> bool,
    recount: bool,
    n: u64,
)
    requires
        retention::purged(before, after, pred, recount, n),
        db::stored_in(before.rows()) - db::stored_in(after.rows()) <= u64::MAX,
    ensures
        n == db::stored_in(before.rows()) - db::stored_in(after.rows()),
{
    lemma_loss(before.rows(), pred);
}

// ---------------------------------------------------------------------- upkeep

/// A message whose worker did not settle it in time waits again, from the very
/// second on at which its time was over. One that is held for longer stays with
/// its worker, and one that nobody holds stays as it is.
pub proof fn law_an_overdue_message_waits_again(
    before: Database,
    after: Database,
    now: UtcTime,
    n: u64,
    s: int,
    i: int,
    until: UtcTime,
)
    requires
        retention::reclaimed(before, after, clock::time_text(now), n),
        is_place(before.rows(), s, i),
        before.rows()[s][i].next_attempt_at == clock::time_text(until),
        clock::faithful(now),
        now.writable(),
        until.writable(),
    ensures
        is_place(after.rows(), s, i),
        ({
            let old = before.rows()[s][i];
            let new = after.rows()[s][i];
            let overdue = old.status == MessageStatus::Processing && !now.is_before(until);
            &&& !overdue ==> new == old
            &&& overdue ==> new.status == MessageStatus::Pending && new.lease is None
                && same_content(new, old) && new.attempts == old.attempts && new.next_attempt_at
                == old.next_attempt_at && new.last_error == old.last_error
        }),
{
    clock::law_texts_sort_as_times(now, until);
}

/// Dropping what nobody hears touches the waiting messages of the named topics
/// that nobody receives, all of them, and no other message.
pub proof fn law_what_nobody_hears_is_dropped(
    before: Database,
    after: Database,
    live: Live,
    names: Seq<Seq<char>>,
    now: Seq<char>,
    s: int,
    i: int,
)
    requires
        bookkeeping::sound(before),
        upkeep::unheard_dropped(before, after, live, names, now),
        is_place(before.rows(), s, i),
    ensures
        bookkeeping::sound(after),
        is_place(after.rows(), s, i),
        ({
            let old = before.rows()[s][i];
            let new = after.rows()[s][i];
            let hit = old.status == MessageStatus::Pending && names.contains(old.topic)
                && !subscribers::covered(live, old.topic);
            &&& same_content(new, old)
            &&& !hit ==> new == old
            &&& hit ==> new.status == MessageStatus::Dropped && new.last_error == Some(
                "no live subscriber"@,
            )
        }),
    decreases names.len(),
{
    if names.len() > 0 {
        let init = names.drop_last();
        let mid = choose|mid: Database|
            upkeep::unheard_dropped(before, mid, live, init, now)
                && #[trigger] upkeep::dropped_unless_heard(mid, after, live, names.last(), now);
        law_what_nobody_hears_is_dropped(before, mid, live, init, now, s, i);
        let topic = before.rows()[s][i].topic;
        assert(init.contains(topic) ==> names.contains(topic)) by {
            if init.contains(topic) {
                let k = init.index_of(topic);
                assert(names[k] == topic);
            }
        }
        assert(names.contains(topic) ==> init.contains(topic) || names.last() == topic) by {
            if names.contains(topic) && names.last() != topic {
                let k = names.index_of(topic);
                assert(init[k] == topic);
            }
        }
        assert(names[names.len() - 1] == names.last());
        if !subscribers::covered(live, names.last()) {
            let n = choose|n: int| #[trigger]
                queue::pending_dropped(mid, after, names.last(), now, n);
            bookkeeping::law_dropping_what_waits_keeps_the_store_sound(
                mid,
                after,
                names.last(),
                now,
                n,
            );
            law_dropping_what_waits_drops_all_of_it(mid, after, names.last(), now, n, s, i);
        }
    }
}

/// The topics that a sweep looks at are those of the catalogue that are
/// ephemeral, each once and in order.
pub proof fn law_a_sweep_looks_at_every_ephemeral_topic(
    db: Database,
    names: Seq<Seq<char>>,
    topic: Seq<char>,
)
    requires
        upkeep::are_ephemeral(db, names),
    ensures
        names.contains(topic) == (db.topics@.contains_key(topic) && db.topics@[topic].persistence
            == "ephemeral"@),
{
}

/// A message is posted downstream only where no subscription has its topic for a
/// filter, its topic is not ephemeral, and nobody receives it. Its lease is the
/// one under which it was fetched.
pub proof fn law_only_unwanted_persistent_messages_go_downstream(
    before: Database,
    after: Database,
    live: Live,
    visibility: u64,
    now: UtcTime,
    lease: Seq<char>,
    m: ClaimedMessage,
)
    requires
        before.wf(),
        upkeep::dispatched(before, after, live, visibility, now, lease, Some(m)),
    ensures
        !live.contains_key(m@.topic),
        !(before.topics@.contains_key(m@.topic) && before.topics@[m@.topic].persistence
            == "ephemeral"@),
        !subscribers::covered(live, m@.topic),
        m@.lease == lease,
{
    let (skip, mid, got) = choose|
        skip: Seq<Seq<char>>,
        mid: Database,
        got: Result<Option<ClaimedMessage>, queue::BadAttributes>,
    |
        #![trigger queue::claimed_excluding(before, mid, skip, now, visibility, lease, got)]
        {
            &&& forall|t: Seq<char>| #[trigger]
                skip.contains(t) <==> upkeep::is_skipped(before, live, t)
            &&& queue::claimed_excluding(before, mid, skip, now, visibility, lease, got)
            &&& match got {
                Ok(Some(message)) => if subscribers::covered(live, message@.topic) {
                    &&& Some(m) is None
                    &&& exists|ok: bool| #[trigger]
                        queue::released(mid, after, message@.id, message@.lease, ok)
                } else {
                    &&& m@ == message@
                    &&& after == mid
                },
                _ => Some(m) is None && after == mid,
            }
        };
    let message = got->Ok_0->Some_0;
    assert(got == Ok::<Option<ClaimedMessage>, queue::BadAttributes>(Some(message)));
    law_topics_left_out_are_not_handed_out(before, mid, skip, now, visibility, lease, message);
    assert(!upkeep::is_skipped(before, live, m@.topic));
}

/// A message that was fetched for downstream and that somebody receives by now
/// is given back: nobody holds it, and no attempt is counted.
pub proof fn law_what_somebody_receives_is_given_back(
    before: Database,
    after: Database,
    live: Live,
    visibility: u64,
    now: UtcTime,
    lease: Seq<char>,
)
    requires
        upkeep::dispatched(before, after, live, visibility, now, lease, None),
    ensures
        exists|
            skip: Seq<Seq<char>>,
            mid: Database,
            got: Result<Option<ClaimedMessage>, queue::BadAttributes>,
        | #[trigger]
            queue::claimed_excluding(before, mid, skip, now, visibility, lease, got) && {
                ||| after == mid && !(got matches Ok(Some(_)))
                ||| got matches Ok(Some(message)) && subscribers::covered(live, message@.topic)
                    && exists|ok: bool| #[trigger]
                    queue::released(mid, after, message@.id, message@.lease, ok)
            },
{
}

/// A message that was posted downstream is delivered, and one that could not be
/// posted has failed for the reason that is given.
pub proof fn law_posting_settles_the_message(
    before: Database,
    after: Database,
    id: Seq<char>,
    lease: Seq<char>,
    error: Option<Seq<char>>,
    max_attempts: i64,
    now: UtcTime,
    ok: bool,
)
    requires
        upkeep::post_settled(before, after, id, lease, error, max_attempts, now, ok),
    ensures
        error is None ==> db::delivered_once(before, after, id, lease, ok, now),
        error is Some ==> queue::attempt_failed(
            before,
            after,
            id,
            lease,
            error->0,
            max_attempts,
            now,
            ok,
        ),
{
}

/// Idle topics are looked for only where hours are set for them: the first time
/// at once, and then whenever the hours between two looks have passed.
pub proof fn law_idle_topics_are_looked_for_every_so_many_hours(config: Config, secs: u64)
    requires
        config.purge_interval_hours * 3600 <= u64::MAX,
    ensures
        config.ephemeral_idle_hours == 0 ==> !upkeep::idle_due(config, None) && !upkeep::idle_due(
            config,
            Some(secs),
        ),
        config.ephemeral_idle_hours > 0 ==> upkeep::idle_due(config, None),
        config.ephemeral_idle_hours > 0 ==> upkeep::idle_due(config, Some(secs)) == (secs as int
            / 3600 >= config.purge_interval_hours as int),
{
}

/// A sweep forgets a topic exactly where it is ephemeral, was made without
/// settings, has no consumer and no subscription of its name, and was last seen
/// before the hours that are set. Its messages go with it, and every other
/// message stays.
pub proof fn law_idle_topics_are_forgotten_with_their_messages(
    before: Database,
    after: Database,
    live: Live,
    config: Config,
    since: Option<u64>,
    now: UtcTime,
    name: Seq<char>,
    seen: UtcTime,
    s: int,
    m: MessageView,
)
    requires
        before.wf(),
        upkeep::idle_swept(before, after, live, config, since, now),
        upkeep::idle_due(config, since),
        db::topics_flushed(before, clock::time_text(now)).contains_key(name),
        db::topics_flushed(before, clock::time_text(now))[name].last_seen_at == Some(
            clock::time_text(seen),
        ),
        seen.writable(),
        now.valid(),
        clock::FIRST_SECOND <= now.secs - config.ephemeral_idle_hours * 3600,
        upkeep::time_before(now, config.ephemeral_idle_hours as int, 3600).writable(),
        0 <= s < MESSAGE_SHARDS,
        m.topic == name,
        s == shard::shard_of(name),
    ensures
        ({
            let row = db::topics_flushed(before, clock::time_text(now))[name];
            let old = seen.secs < now.secs - config.ephemeral_idle_hours * 3600 || (seen.secs
                == now.secs - config.ephemeral_idle_hours * 3600 && seen.nanos < now.nanos);
            let idle = row.persistence == "ephemeral"@ && !row.configured && !live.contains_key(
                name,
            ) && !(exists|c: consumers::ConsumerView| #[trigger]
                before.consumers@.contains(c) && c.topic == name) && old;
            &&& after.topics@.contains_key(name) == !idle
            &&& idle ==> !after.rows()[s].contains(m)
            &&& !idle ==> after.rows()[s].contains(m) == before.rows()[s].contains(m)
        }),
{
    let at = clock::time_text(now);
    let end = upkeep::time_before(now, config.ephemeral_idle_hours as int, 3600);
    let cutoff = clock::time_text(end);
    clock::law_seconds_later_are_seconds_later(now, -(config.ephemeral_idle_hours * 3600));
    clock::law_texts_sort_as_times(end, seen);
    let (keep, n) = choose|keep: Seq<Seq<char>>, n: usize|
        {
            &&& forall|t: Seq<char>| #[trigger] keep.contains(t) <==> live.contains_key(t)
            &&& #[trigger] retention::idle_purged(before, after, cutoff, keep, at, n)
        };
    assert(retention::idle_purged(before, after, cutoff, keep, at, n));
    let topics = db::topics_flushed(before, at);
    let names = choose|names: Seq<Seq<char>>|
        {
            &&& #[trigger] retention::are_idle(topics, before.consumers@, cutoff, keep, names)
            &&& after.rows() == retention::rows_without(before.rows(), names)
            &&& after.topics@ == retention::without(topics, names)
        };
    assert(names.contains(name) <==> retention::is_idle(
        topics,
        before.consumers@,
        cutoff,
        keep,
        name,
    ));
    assert(consumers::has_consumer(before.consumers@, name) <==> exists|
        c: consumers::ConsumerView,
    | #[trigger]
        before.consumers@.contains(c) && c.topic == name) by {
        if consumers::has_consumer(before.consumers@, name) {
            let i = choose|i: int|
                0 <= i < before.consumers@.len() && (#[trigger] before.consumers@[i]).topic == name;
            assert(before.consumers@.contains(before.consumers@[i]));
        }
    }
    lemma_rows_without(before.rows(), names, s, m);
}

proof fn lemma_rows_without(rows: Seq<db::Rows>, names: Seq<Seq<char>>, s: int, m: MessageView)
    requires
        rows.len() == MESSAGE_SHARDS,
        s == shard::shard_of(m.topic),
        0 <= s < MESSAGE_SHARDS,
    ensures
        retention::rows_without(rows, names).len() == MESSAGE_SHARDS,
        retention::rows_without(rows, names)[s].contains(m) <==> rows[s].contains(m)
            && !names.contains(m.topic),
    decreases names.len(),
{
    if names.len() > 0 {
        let init = names.drop_last();
        let last = names.last();
        lemma_rows_without(rows, init, s, m);
        shard::law_every_topic_has_a_shard(last);
        let rest = retention::rows_without(rows, init);
        let pred = messages::not_of_topic(last);
        assert(names =~= init.push(last));
        assert(names.contains(m.topic) <==> init.contains(m.topic) || m.topic == last) by {
            if init.contains(m.topic) {
                assert(names[init.index_of(m.topic)] == m.topic);
            }
            if names.contains(m.topic) && m.topic != last {
                assert(init[names.index_of(m.topic)] == m.topic);
            }
            assert(names[names.len() - 1] == last);
        }
        if shard::shard_of(last) == s {
            messages::lemma_kept_all(rest[s], pred);
            messages::lemma_kept_from(rest[s], pred);
            if rest[s].contains(m) && m.topic != last {
                assert(pred(m));
                assert(messages::kept(rest[s], pred).contains(m));
            }
        }
    }
}

/// Whether every stored message has a property.
pub open spec fn every_message(rows: Seq<db::Rows>, p: spec_fn(MessageView) -> bool) -> bool {
    forall|s: int, i: int| #[trigger] is_place(rows, s, i) ==> p(rows[s][i])
}

proof fn lemma_kept_every(
    rows: Seq<db::Rows>,
    pred: spec_fn(MessageView) -> bool,
    p: spec_fn(MessageView) -> bool,
)
    ensures
        every_message(retention::kept_all(rows, pred), pred),
        every_message(rows, p) ==> every_message(retention::kept_all(rows, pred), p),
{
    let after = retention::kept_all(rows, pred);
    assert forall|s: int, i: int| #[trigger] is_place(after, s, i) implies pred(after[s][i]) && (
    every_message(rows, p) ==> p(after[s][i])) by {
        messages::lemma_kept_from(rows[s], pred);
        assert(after[s] == messages::kept(rows[s], pred));
        assert(messages::kept(rows[s], pred).contains(after[s][i]));
        let k = rows[s].index_of(after[s][i]);
        assert(rows[s].contains(after[s][i]));
        assert(is_place(rows, s, k));
    }
}

proof fn lemma_without_every(
    rows: Seq<db::Rows>,
    names: Seq<Seq<char>>,
    p: spec_fn(MessageView) -> bool,
)
    requires
        rows.len() == MESSAGE_SHARDS,
        every_message(rows, p),
    ensures
        retention::rows_without(rows, names).len() == MESSAGE_SHARDS,
        every_message(retention::rows_without(rows, names), p),
    decreases names.len(),
{
    if names.len() > 0 {
        shard::law_every_topic_has_a_shard(names.last());
        lemma_without_every(rows, names.drop_last(), p);
        let rest = retention::rows_without(rows, names.drop_last());
        let at = shard::shard_of(names.last());
        let pred = messages::not_of_topic(names.last());
        let next = retention::rows_without(rows, names);
        assert forall|s: int, i: int| #[trigger] is_place(next, s, i) implies p(next[s][i]) by {
            if s == at {
                messages::lemma_kept_from(rest[s], pred);
                assert(messages::kept(rest[s], pred).contains(next[s][i]));
                let k = rest[s].index_of(next[s][i]);
                assert(rest[s].contains(next[s][i]));
                assert(is_place(rest, s, k));
            } else {
                assert(is_place(rest, s, i));
            }
        }
    }
}

/// A sweep is thorough. After it no message waits on an ephemeral topic that
/// nobody receives, none is older than the days that are set, no delivered one
/// is older than the hours that are set, and no consumer is left that was not
/// seen for the seconds that are set.
pub proof fn law_a_sweep_is_thorough(
    before: Database,
    after: Database,
    live: Live,
    config: Config,
    since: Option<u64>,
    now: UtcTime,
    s: int,
    i: int,
    c: consumers::ConsumerView,
)
    requires
        bookkeeping::sound(before),
        upkeep::sweep_done(before, after, live, config, since, now),
        is_place(after.rows(), s, i),
    ensures
        ({
            let m = after.rows()[s][i];
            let unheard = before.topics@.contains_key(m.topic)
                && before.topics@[m.topic].persistence == "ephemeral"@ && !subscribers::covered(
                live,
                m.topic,
            );
            &&& unheard ==> m.status != MessageStatus::Pending
            &&& config.message_retention_days > 0 ==> !text::text_less(
                m.created_at,
                clock::time_text(
                    clock::time_after(now, -(config.message_retention_days * 86400)),
                ),
            )
            &&& config.delivered_retention_hours > 0 && m.status == MessageStatus::Delivered
                && m.delivered_at is Some ==> !text::text_less(
                m.delivered_at->0,
                clock::time_text(
                    clock::time_after(now, -(config.delivered_retention_hours * 3600)),
                ),
            )
        }),
        after.consumers@.contains(c) && config.consumer_ttl_secs > 0 ==> !text::text_less(
            c.last_seen_at,
            clock::time_text(clock::time_after(now, -(config.consumer_ttl_secs as int))),
        ),
{
    let at = clock::time_text(now);
    let (n, first, list, a, b, d, e) = choose|
        n: u64,
        first: Database,
        list: Seq<Seq<char>>,
        a: Database,
        b: Database,
        d: Database,
        e: Database,
    |
        #![trigger retention::reclaimed(before, first, clock::time_text(now), n),
            upkeep::unheard_dropped(first, a, live, list, clock::time_text(now)),
            upkeep::old_purged(a, b, config, now),
            upkeep::delivered_purged(b, d, config, now),
            upkeep::idle_swept(d, e, live, config, since, now)]
        {
            &&& retention::reclaimed(before, first, clock::time_text(now), n)
            &&& upkeep::are_ephemeral(first, list)
            &&& upkeep::unheard_dropped(first, a, live, list, clock::time_text(now))
            &&& upkeep::old_purged(a, b, config, now)
            &&& upkeep::delivered_purged(b, d, config, now)
            &&& upkeep::idle_swept(d, e, live, config, since, now)
            &&& upkeep::consumers_swept(e, after, config, now)
        };
    bookkeeping::law_reclaiming_keeps_the_store_sound(before, first, at, n);
    let heard = |m: MessageView|
        m.status == MessageStatus::Pending ==> !(before.topics@.contains_key(m.topic)
            && before.topics@[m.topic].persistence == "ephemeral"@ && !subscribers::covered(
            live,
            m.topic,
        ));
    lemma_unheard_shape(first, a, live, list, at);
    assert forall|t: int, k: int| #[trigger] is_place(a.rows(), t, k) implies heard(
        a.rows()[t][k],
    ) by {
        assert(is_place(first.rows(), t, k));
        law_what_nobody_hears_is_dropped(first, a, live, list, at, t, k);
    }
    let young_end = clock::time_text(
        upkeep::time_before(now, config.message_retention_days as int, 86400),
    );
    let young = messages::not_created_before(young_end);
    let fresh_end = clock::time_text(
        upkeep::time_before(now, config.delivered_retention_hours as int, 3600),
    );
    let fresh = messages::not_delivered_before(fresh_end);
    if config.message_retention_days > 0 {
        lemma_kept_every(a.rows(), young, heard);
    }
    if config.delivered_retention_hours > 0 {
        lemma_kept_every(b.rows(), fresh, heard);
        lemma_kept_every(b.rows(), fresh, young);
    }
    assert(d.rows().len() == MESSAGE_SHARDS);
    if upkeep::idle_due(config, since) {
        let cutoff = clock::time_text(
            upkeep::time_before(now, config.ephemeral_idle_hours as int, 3600),
        );
        let (keep, m) = choose|keep: Seq<Seq<char>>, m: usize|
            {
                &&& forall|t: Seq<char>| #[trigger] keep.contains(t) <==> live.contains_key(t)
                &&& #[trigger] retention::idle_purged(d, e, cutoff, keep, at, m)
            };
        assert(retention::idle_purged(d, e, cutoff, keep, at, m));
        let topics = db::topics_flushed(d, at);
        let names = choose|names: Seq<Seq<char>>|
            {
                &&& #[trigger] retention::are_idle(topics, d.consumers@, cutoff, keep, names)
                &&& e.rows() == retention::rows_without(d.rows(), names)
            };
        lemma_without_every(d.rows(), names, heard);
        if config.message_retention_days > 0 {
            lemma_without_every(d.rows(), names, young);
        }
        if config.delivered_retention_hours > 0 {
            lemma_without_every(d.rows(), names, fresh);
        }
    }
    assert(after.rows() == e.rows());
    assert(is_place(e.rows(), s, i));
    if config.consumer_ttl_secs > 0 {
        consumers::lemma_consumers_kept(
            e.consumers@,
            consumers::not_seen_before(
                clock::time_text(upkeep::time_before(now, config.consumer_ttl_secs as int, 1)),
            ),
            c,
        );
    }
}

proof fn lemma_unheard_shape(
    before: Database,
    after: Database,
    live: Live,
    names: Seq<Seq<char>>,
    now: Seq<char>,
)
    requires
        before.wf(),
        upkeep::unheard_dropped(before, after, live, names, now),
    ensures
        after.wf(),
        after.rows().len() == before.rows().len(),
        forall|s: int|
            0 <= s < before.rows().len() ==> (#[trigger] after.rows()[s]).len()
                == before.rows()[s].len(),
    decreases names.len(),
{
    if names.len() > 0 {
        let mid = choose|mid: Database|
            upkeep::unheard_dropped(before, mid, live, names.drop_last(), now)
                && #[trigger] upkeep::dropped_unless_heard(mid, after, live, names.last(), now);
        lemma_unheard_shape(before, mid, live, names.drop_last(), now);
        shard::law_every_topic_has_a_shard(names.last());
    }
}

/// Clearing tells how many messages it deleted.
pub proof fn law_clearing_tells_how_many(
    before: Database,
    after: Database,
    filter: Seq<char>,
    now: Seq<char>,
    n: u64,
)
    requires
        before.wf(),
        retention::cleared(before, after, filter, now, n),
        db::stored_in(before.rows()) - db::stored_in(after.rows()) <= u64::MAX,
    ensures
        n == db::stored_in(before.rows()) - db::stored_in(after.rows()),
{
    let pred = messages::not_picked(filter);
    let rows = before.rows();
    if topic::wild(filter) {
        lemma_loss(rows, pred);
    } else {
        shard::law_every_topic_has_a_shard(filter);
        let s = shard::shard_of(filter);
        messages::lemma_kept_from(rows[s], pred);
        lemma_stored_update(rows, s, messages::kept(rows[s], pred));
    }
}

proof fn lemma_stored_update(rows: Seq<db::Rows>, s: int, own: db::Rows)
    requires
        0 <= s < rows.len(),
    ensures
        db::stored_in(rows.update(s, own)) == db::stored_in(rows) - rows[s].len() + own.len(),
    decreases rows.len(),
{
    let init = rows.drop_last();
    let after = rows.update(s, own);
    if s < init.len() {
        lemma_stored_update(init, s, own);
        assert(after.drop_last() =~= init.update(s, own));
    } else {
        assert(after.drop_last() =~= init);
    }
}

// ---------------------------------------------------------------------- claims

/// A message whose attributes cannot be read is claimed all the same, and the
/// worker is told so; any other claimed message is handed out.
pub proof fn law_unreadable_attributes_are_told(
    before: Database,
    after: Database,
    s: int,
    want: WantView,
    now: Seq<char>,
    lease: Seq<char>,
    visible_again: Seq<char>,
    r: Result<Option<ClaimedMessage>, queue::BadAttributes>,
    i: int,
)
    requires
        before.wf(),
        0 <= s < MESSAGE_SHARDS,
        queue::claimed_on(before, after, s, want, now, lease, visible_again, r),
        messages::claim_place(before.rows()[s], want, now) == Some(i),
    ensures
        r is Err <==> json::json_of(before.rows()[s][i].attributes) is Invalid,
        r is Ok ==> r->Ok_0 is Some && r->Ok_0->0@.id == before.rows()[s][i].id,
        is_held(after.rows(), s, i, lease),
        after.rows()[s][i].next_attempt_at == visible_again,
{
    messages::lemma_oldest_place(before.rows()[s], messages::claimable(want, now));
}

/// Claims go round the shards: the first shard from the cursor on that has
/// something serves, and the cursor moves on by one with every claim.
pub proof fn law_the_first_shard_from_the_cursor_serves(
    before: Database,
    after: Database,
    want: WantView,
    now: Seq<char>,
    lease: Seq<char>,
    visible_again: Seq<char>,
    m: ClaimedMessage,
)
    requires
        before.wf(),
        queue::claimed_anywhere(before, after, want, now, lease, visible_again, Ok(Some(m))),
    ensures
        exists|n: int, i: int|
            0 <= n < 16 && #[trigger] is_held(
                after.rows(),
                (before.cursor + n) % 16,
                i,
                lease,
            ) && after.rows()[(before.cursor + n) % 16][i].id == m@.id && (forall|k: int|
                0 <= k < n ==> #[trigger] messages::claim_place(
                    before.rows()[(before.cursor + k) % 16],
                    want,
                    now,
                ) is None),
        before.cursor < usize::MAX ==> after.cursor == before.cursor + 1,
{
    let start = before.cursor as int % 16;
    let n = lemma_first_serving(before.rows(), want, now, start, 16);
    let s = (start + n) % 16;
    assert((before.cursor + n) % 16 == s) by {
        lemma_round(before.cursor as int, n);
    }
    let moved = Database { cursor: queue::advanced(before.cursor), ..before };
    assert(moved.rows() == before.rows());
    let i = messages::claim_place(before.rows()[s], want, now)->0;
    messages::lemma_oldest_place(before.rows()[s], messages::claimable(want, now));
    assert(is_held(after.rows(), (before.cursor + n) % 16, i, lease));
    assert forall|k: int| 0 <= k < n implies #[trigger] messages::claim_place(
        before.rows()[(before.cursor + k) % 16],
        want,
        now,
    ) is None by {
        lemma_round(before.cursor as int, k);
        assert(messages::claim_place(before.rows()[(start + k) % 16], want, now) is None);
    }
}

proof fn lemma_round(cursor: int, k: int)
    requires
        0 <= cursor,
        0 <= k,
    ensures
        (cursor + k) % 16 == (cursor % 16 + k) % 16,
        0 <= (cursor + k) % 16 < 16,
{
}

proof fn lemma_first_serving(
    rows: Seq<db::Rows>,
    want: WantView,
    now: Seq<char>,
    start: int,
    n: int,
) -> (place: int)
    requires
        0 <= n,
        queue::serving_shard(rows, want, now, start, n) is Some,
    ensures
        0 <= place < n,
        queue::serving_shard(rows, want, now, start, n) == Some((start + place) % 16),
        messages::claim_place(rows[(start + place) % 16], want, now) is Some,
        forall|k: int|
            0 <= k < place ==> #[trigger] messages::claim_place(
                rows[(start + k) % 16],
                want,
                now,
            ) is None,
    decreases n,
{
    if queue::serving_shard(rows, want, now, start, n - 1) is Some {
        lemma_first_serving(rows, want, now, start, n - 1)
    } else {
        lemma_none_serving(rows, want, now, start, n - 1);
        n - 1
    }
}

proof fn lemma_none_serving(
    rows: Seq<db::Rows>,
    want: WantView,
    now: Seq<char>,
    start: int,
    n: int,
)
    requires
        0 <= n,
        queue::serving_shard(rows, want, now, start, n) is None,
    ensures
        forall|k: int|
            0 <= k < n ==> #[trigger] messages::claim_place(
                rows[(start + k) % 16],
                want,
                now,
            ) is None,
    decreases n,
{
    if n > 0 {
        lemma_none_serving(rows, want, now, start, n - 1);
        assert(messages::claim_place(rows[(start + (n - 1)) % 16], want, now) is None);
        assert forall|k: int| 0 <= k < n implies #[trigger] messages::claim_place(
            rows[(start + k) % 16],
            want,
            now,
        ) is None by {
            if k == n - 1 {
            }
        }
    }
}

/// Whoever claims a message holds it for the seconds asked for, and for thirty
/// where that is more than can be counted.
pub proof fn law_a_claimed_message_is_held_for_its_seconds(
    before: Database,
    after: Database,
    name: Seq<char>,
    now: UtcTime,
    visibility: u64,
    lease: Seq<char>,
    m: ClaimedMessage,
)
    requires
        before.wf(),
        queue::claimed_for_topic(before, after, name, now, visibility, lease, Ok(Some(m))),
    ensures
        exists|i: int| #[trigger]
            is_held(after.rows(), shard::shard_of(name), i, lease) && ({
                let row = after.rows()[shard::shard_of(name)][i];
                &&& row.id == m@.id
                &&& row.topic == name
                &&& visibility <= i64::MAX / 1000 ==> row.next_attempt_at == clock::time_text(
                    clock::time_after(now, visibility as int),
                )
                &&& visibility > i64::MAX / 1000 ==> row.next_attempt_at == clock::time_text(
                    clock::time_after(now, 30),
                )
            }),
{
    let s = shard::shard_of(name);
    let at = clock::time_text(now);
    let want = WantView::Topic(name);
    shard::law_every_topic_has_a_shard(name);
    messages::lemma_oldest_place(before.rows()[s], messages::claimable(want, at));
    let i = messages::claim_place(before.rows()[s], want, at)->0;
    assert(is_held(after.rows(), s, i, lease));
}

} // verus!
