//! The life of messages in the store: claims, failures, drops and purges.
use vstd::prelude::*;
use vstd::string::*;

use crate::catalog;
use crate::clock;
use crate::clock::UtcTime;
use crate::db;
use crate::db::Database;
use crate::json;
use crate::messages;
use crate::messages::{MessageStatus, Want, WantView};
use crate::model::ClaimedMessage;
use crate::shard;
use crate::shard::MESSAGE_SHARDS;
use crate::text;
use crate::topic;

verus! {

/// Only messages and depths may have changed.
pub open spec fn queue_only(before: Database, after: Database) -> bool {
    &&& after == (Database { shards: after.shards, depths: after.depths, ..before })
    &&& before.wf() ==> after.wf()
}

/// Neither messages nor depths have changed.
pub open spec fn queue_same(before: Database, after: Database) -> bool {
    &&& queue_only(before, after)
    &&& after.rows() == before.rows()
    &&& after.depths@ == before.depths@
}

// -------------------------------------------------------------------- settling

pub open spec fn released(
    before: Database,
    after: Database,
    id: Seq<char>,
    lease: Seq<char>,
    ok: bool,
) -> bool {
    match db::held_at(before.rows(), id, lease) {
        None => !ok && queue_same(before, after),
        Some(at) => {
            let row = before.rows()[at.0][at.1];
            &&& ok
            &&& queue_only(before, after)
            &&& after.rows() == db::with_row(before.rows(), at, messages::as_pending(row))
            &&& after.depths@ == catalog::depth_bumped(before.depths@, row.topic, 1, -1 as i64)
        },
    }
}

/// Two to the power `n`.
pub open spec fn power_of_two(n: int) -> int
    decreases n,
{
    if n <= 0 {
        1
    } else {
        2 * power_of_two(n - 1)
    }
}

/// Seconds until the next attempt: doubled with every attempt up to the eighth,
/// and never more than five minutes.
pub open spec fn retry_delay(attempts: i64) -> int {
    if attempts < 0 {
        300
    } else {
        let n = if attempts < 8 {
            attempts as int
        } else {
            8
        };
        if power_of_two(n) < 300 {
            power_of_two(n)
        } else {
            300
        }
    }
}

pub open spec fn next_attempt(attempts: i64, now: UtcTime) -> Seq<char> {
    clock::time_text(clock::time_after(now, retry_delay(attempts)))
}

/// A failed attempt. A message that has failed for good is counted in the
/// catalogue.
pub open spec fn attempt_failed(
    before: Database,
    after: Database,
    id: Seq<char>,
    lease: Seq<char>,
    error: Seq<char>,
    max_attempts: i64,
    now: UtcTime,
    ok: bool,
) -> bool {
    match db::held_at(before.rows(), id, lease) {
        None => !ok && queue_same(before, after),
        Some(at) => {
            let row = before.rows()[at.0][at.1];
            let over = messages::status_after_failure(row.attempts, max_attempts)
                == MessageStatus::Failed;
            &&& ok
            &&& after == (Database {
                shards: after.shards,
                depths: after.depths,
                topics: after.topics,
                trend_deltas: after.trend_deltas,
                ..before
            })
            &&& before.wf() ==> after.wf()
            &&& after.rows() == db::with_row(
                before.rows(),
                at,
                messages::as_failed(row, error, max_attempts, next_attempt(row.attempts, now)),
            )
            &&& clock::faithful(clock::time_after(now, retry_delay(row.attempts)))
            &&& after.depths@ == catalog::depth_bumped(
                before.depths@,
                row.topic,
                if over {
                    0i64
                } else {
                    1i64
                },
                -1 as i64,
            )
            &&& after.trend_deltas@ == before.trend_deltas@
            &&& after.topics@ == (if over {
                catalog::topic_bumped(
                    before.topics@,
                    row.topic,
                    0,
                    0,
                    0,
                    1,
                    clock::time_text(now),
                )
            } else {
                before.topics@
            })
        },
    }
}

/// Messages, depths and the catalogue may have changed.
pub open spec fn queue_and_topics_only(before: Database, after: Database) -> bool {
    &&& after == (Database {
        shards: after.shards,
        depths: after.depths,
        topics: after.topics,
        ..before
    })
    &&& before.wf() ==> after.wf()
}

pub open spec fn claimed_dropped(
    before: Database,
    after: Database,
    id: Seq<char>,
    lease: Seq<char>,
    error: Seq<char>,
    now: Seq<char>,
    ok: bool,
) -> bool {
    match db::held_at(before.rows(), id, lease) {
        None => !ok && queue_same(before, after),
        Some(at) => {
            let row = before.rows()[at.0][at.1];
            &&& ok
            &&& queue_and_topics_only(before, after)
            &&& after.rows() == db::with_row(before.rows(), at, messages::as_dropped(row, error))
            &&& after.depths@ == catalog::depth_bumped(before.depths@, row.topic, 0, -1 as i64)
            &&& after.topics@ == catalog::dropped_bumped(before.topics@, row.topic, 1, now)
        },
    }
}

/// A number of rows as a counter.
pub open spec fn counter(n: int) -> i64 {
    if n > i64::MAX {
        i64::MAX
    } else {
        n as i64
    }
}

/// A number of rows as a counter.
pub fn to_counter(n: usize) -> (r: i64)
    ensures
        r == counter(n as int),
        r >= 0,
{
    if n as u64 > i64::MAX as u64 {
        i64::MAX
    } else {
        n as i64
    }
}

pub open spec fn pending_dropped(
    before: Database,
    after: Database,
    topic: Seq<char>,
    now: Seq<char>,
    dropped: int,
) -> bool {
    let s = shard::shard_of(topic);
    let rows = before.rows()[s];
    let n = counter(dropped);
    &&& queue_and_topics_only(before, after)
    &&& dropped == messages::count(rows, messages::waiting_for(topic))
    &&& after.rows() == before.rows().update(
        s,
        messages::changed(
            rows,
            messages::waiting_for(topic),
            messages::to_dropped("no live subscriber"@),
        ),
    )
    &&& if dropped > 0 {
        &&& after.topics@ == catalog::dropped_bumped(before.topics@, topic, n, now)
        &&& after.depths@ == catalog::depth_bumped(before.depths@, topic, -n as i64, 0)
    } else {
        &&& after.topics@ == before.topics@
        &&& after.depths@ == before.depths@
    }
}

impl Database {
    /// Gives a held message back to the queue; says whether it was held.
    pub fn release(&mut self, id: &str, lease: &str) -> (r: bool)
        requires
            old(self).wf(),
        ensures
            released(*old(self), *final(self), id@, lease@, r),
    {
        let ghost before = *self;
        let s: usize = match self.shard_index_for_id(id) {
            Some(s) => s,
            None => return false,
        };
        proof {
            assert(before.rows()[s as int] == before.shards@[s as int]@);
        }
        match self.shards[s].release(id, lease) {
            None => {
                proof {
                    assert(self.rows() =~= before.rows());
                }
                false
            },
            Some(topic) => {
                proof {
                    let i = messages::held_place(before.rows()[s as int], id@, lease@)->0;
                    assert(self.rows() =~= db::with_row(
                        before.rows(),
                        (s as int, i),
                        messages::as_pending(before.rows()[s as int][i]),
                    ));
                }
                self.bump_queue_depth(topic.as_str(), 1, -1);
                true
            },
        }
    }

    /// Ends a failed attempt at the time `now`; says whether the message was held.
    pub fn failed_at(
        &mut self,
        id: &str,
        lease: &str,
        error: &str,
        max_attempts: i64,
        now: UtcTime,
    ) -> (r: bool)
        requires
            old(self).wf(),
            now.valid(),
        ensures
            attempt_failed(
                *old(self),
                *final(self),
                id@,
                lease@,
                error@,
                max_attempts,
                now,
                r,
            ),
    {
        let ghost before = *self;
        let s: usize = match self.shard_index_for_id(id) {
            Some(s) => s,
            None => return false,
        };
        proof {
            assert(before.rows()[s as int] == before.shards@[s as int]@);
        }
        let attempts: i64 = match self.shards[s].held(id, lease) {
            Some(found) => found.1,
            None => return false,
        };
        let next: String = clock::text_of(clock::after(now, retry_delay_secs(attempts)));
        match self.shards[s].failed(id, lease, error, max_attempts, next.as_str()) {
            None => false,
            Some(found) => {
                let topic: &str = found.0.as_str();
                proof {
                    let i = messages::held_place(before.rows()[s as int], id@, lease@)->0;
                    assert(self.rows() =~= db::with_row(
                        before.rows(),
                        (s as int, i),
                        messages::as_failed(
                            before.rows()[s as int][i],
                            error@,
                            max_attempts,
                            next@,
                        ),
                    ));
                }
                if found.1 == MessageStatus::Failed {
                    self.bump_topic_stat(topic, 0, 0, 0, 1, now);
                    self.bump_queue_depth(topic, 0, -1);
                } else {
                    self.bump_queue_depth(topic, 1, -1);
                }
                true
            },
        }
    }

    /// Ends a failed attempt now; says whether the message was held.
    pub fn failed(&mut self, id: &str, lease: &str, error: &str, max_attempts: i64) -> (r: bool)
        requires
            old(self).wf(),
        ensures
            exists|now: UtcTime|
                now.valid() && #[trigger] attempt_failed(
                    *old(self),
                    *final(self),
                    id@,
                    lease@,
                    error@,
                    max_attempts,
                    now,
                    r,
                ),
    {
        let now: UtcTime = clock::now();
        self.failed_at(id, lease, error, max_attempts, now)
    }

    /// Drops a held message; says whether it was held.
    pub fn drop_claimed_at(&mut self, id: &str, lease: &str, error: &str, now: &str) -> (r: bool)
        requires
            old(self).wf(),
        ensures
            claimed_dropped(*old(self), *final(self), id@, lease@, error@, now@, r),
    {
        let ghost before = *self;
        let s: usize = match self.shard_index_for_id(id) {
            Some(s) => s,
            None => return false,
        };
        proof {
            assert(before.rows()[s as int] == before.shards@[s as int]@);
        }
        match self.shards[s].drop_claimed(id, lease, error) {
            None => {
                proof {
                    assert(self.rows() =~= before.rows());
                }
                false
            },
            Some(topic) => {
                proof {
                    let i = messages::held_place(before.rows()[s as int], id@, lease@)->0;
                    assert(self.rows() =~= db::with_row(
                        before.rows(),
                        (s as int, i),
                        messages::as_dropped(before.rows()[s as int][i], error@),
                    ));
                }
                catalog::bump_dropped_count(&mut self.topics, topic.as_str(), 1, now);
                self.bump_queue_depth(topic.as_str(), 0, -1);
                true
            },
        }
    }

    /// Drops a held message now; says whether it was held.
    pub fn drop_claimed(&mut self, id: &str, lease: &str, error: &str) -> (r: bool)
        requires
            old(self).wf(),
        ensures
            exists|now: UtcTime|
                now.valid() && claimed_dropped(
                    *old(self),
                    *final(self),
                    id@,
                    lease@,
                    error@,
                    #[trigger] clock::time_text(now),
                    r,
                ),
    {
        let now: String = clock::text_of(clock::now());
        self.drop_claimed_at(id, lease, error, now.as_str())
    }

    /// Drops the messages of a topic that wait; counts them.
    pub fn drop_pending_at(&mut self, topic: &str, now: &str) -> (r: usize)
        requires
            old(self).wf(),
        ensures
            pending_dropped(*old(self), *final(self), topic@, now@, r as int),
    {
        let ghost before = *self;
        let s: usize = shard::topic_shard(topic);
        proof {
            assert(before.rows()[s as int] == before.shards@[s as int]@);
        }
        let dropped: usize = self.shards[s].drop_pending(topic, "no live subscriber");
        proof {
            assert(self.rows() =~= before.rows().update(
                s as int,
                messages::changed(
                    before.rows()[s as int],
                    messages::waiting_for(topic@),
                    messages::to_dropped("no live subscriber"@),
                ),
            ));
        }
        if dropped > 0 {
            let n: i64 = to_counter(dropped);
            catalog::bump_dropped_count(&mut self.topics, topic, n, now);
            self.bump_queue_depth(topic, -n, 0);
        }
        dropped
    }

    /// Drops the messages of a topic that wait, now; counts them.
    pub fn drop_pending(&mut self, topic: &str) -> (r: usize)
        requires
            old(self).wf(),
        ensures
            exists|now: UtcTime|
                now.valid() && pending_dropped(
                    *old(self),
                    *final(self),
                    topic@,
                    #[trigger] clock::time_text(now),
                    r as int,
                ),
    {
        let now: String = clock::text_of(clock::now());
        self.drop_pending_at(topic, now.as_str())
    }
}

/// Seconds until the next attempt.
pub fn retry_delay_secs(attempts: i64) -> (r: i64)
    ensures
        r == retry_delay(attempts),
        0 < r <= 300,
{
    if attempts < 0 {
        return 300;
    }
    let n: i64 = if attempts < 8 {
        attempts
    } else {
        8
    };
    let mut delay: i64 = 1;
    let mut i: i64 = 0;
    while i < n
        invariant
            0 <= i <= n,
            n <= 8,
            delay == power_of_two(i as int),
            i == 0 ==> delay == 1,
            i == 1 ==> delay == 2,
            i == 2 ==> delay == 4,
            i == 3 ==> delay == 8,
            i == 4 ==> delay == 16,
            i == 5 ==> delay == 32,
            i == 6 ==> delay == 64,
            i == 7 ==> delay == 128,
            i == 8 ==> delay == 256,
        decreases n - i,
    {
        delay = delay * 2;
        i = i + 1;
    }
    delay
}

// -------------------------------------------------------------------- claiming

/// The attributes of a claimed message are not JSON.
#[derive(Debug, Clone, Copy, PartialEq, Eq, Structural)]
pub struct BadAttributes;

/// What a worker gets that claims on shard `s`. The message is held even where
/// its attributes cannot be read.
pub open spec fn claimed_on(
    before: Database,
    after: Database,
    s: int,
    want: WantView,
    now: Seq<char>,
    lease: Seq<char>,
    visible_again: Seq<char>,
    r: Result<Option<ClaimedMessage>, BadAttributes>,
) -> bool {
    match messages::claim_place(before.rows()[s], want, now) {
        None => r matches Ok(None) && queue_same(before, after),
        Some(i) => {
            let row = before.rows()[s][i];
            &&& queue_only(before, after)
            &&& after.rows() == db::with_row(
                before.rows(),
                (s, i),
                messages::as_claimed(row, lease, visible_again),
            )
            &&& after.depths@ == catalog::depth_bumped(before.depths@, row.topic, -1 as i64, 1)
            &&& match r {
                Err(_) => json::json_of(row.attributes) is Invalid,
                Ok(got) => {
                    &&& !(json::json_of(row.attributes) is Invalid)
                    &&& got matches Some(m) && m@ == messages::handed(row, lease)
                },
            }
        },
    }
}

/// Seconds for which a claim lasts: half a minute where the time asked for is
/// beyond what a duration can hold.
pub open spec fn visible_seconds(visibility: u64) -> i64 {
    if visibility <= 9223372036854775 {
        visibility as i64
    } else {
        30i64
    }
}

pub open spec fn visible_text(now: UtcTime, visibility: u64) -> Seq<char> {
    clock::time_text(clock::time_after(now, visible_seconds(visibility) as int))
}

/// Whether the texts of the times of a claim stand for them: the time of the
/// claim, and the one from which on the message may be claimed again.
pub open spec fn claim_faithful(now: UtcTime, visibility: u64) -> bool {
    &&& clock::faithful(now)
    &&& clock::faithful(clock::time_after(now, visible_seconds(visibility) as int))
}

/// The `n`-th shard of a search that starts at `start`.
pub open spec fn nth_shard(start: int, n: int) -> int {
    (start + n) % 16
}

/// The first of `n` shards, from `start` on, that has a message for the worker.
pub open spec fn serving_shard(
    rows: Seq<db::Rows>,
    want: WantView,
    now: Seq<char>,
    start: int,
    n: int,
) -> Option<int>
    decreases n,
{
    if n <= 0 {
        None
    } else {
        match serving_shard(rows, want, now, start, n - 1) {
            Some(s) => Some(s),
            None => if messages::claim_place(rows[nth_shard(start, n - 1)], want, now) is Some {
                Some(nth_shard(start, n - 1))
            } else {
                None
            },
        }
    }
}

pub open spec fn advanced(cursor: usize) -> usize {
    if cursor == usize::MAX {
        0usize
    } else {
        (cursor + 1) as usize
    }
}

/// What a worker gets that claims on any shard. The next search starts one
/// shard further on.
pub open spec fn claimed_anywhere(
    before: Database,
    after: Database,
    want: WantView,
    now: Seq<char>,
    lease: Seq<char>,
    visible_again: Seq<char>,
    r: Result<Option<ClaimedMessage>, BadAttributes>,
) -> bool {
    let moved = Database { cursor: advanced(before.cursor), ..before };
    match serving_shard(before.rows(), want, now, before.cursor as int % 16, 16) {
        None => r matches Ok(None) && queue_same(moved, after),
        Some(s) => claimed_on(moved, after, s, want, now, lease, visible_again, r),
    }
}

/// What a worker gets that claims for a topic or, if it has a wildcard, for a
/// filter.
pub open spec fn claimed_for_filter(
    before: Database,
    after: Database,
    filter: Seq<char>,
    now: UtcTime,
    visibility: u64,
    lease: Seq<char>,
    r: Result<Option<ClaimedMessage>, BadAttributes>,
) -> bool {
    if topic::wild(filter) {
        &&& claimed_anywhere(
            before,
            after,
            WantView::Filter(filter),
            clock::time_text(now),
            lease,
            visible_text(now, visibility),
            r,
        )
        &&& claim_faithful(now, visibility)
    } else {
        claimed_for_topic(before, after, filter, now, visibility, lease, r)
    }
}

/// What a worker gets that claims for a topic.
pub open spec fn claimed_for_topic(
    before: Database,
    after: Database,
    topic: Seq<char>,
    now: UtcTime,
    visibility: u64,
    lease: Seq<char>,
    r: Result<Option<ClaimedMessage>, BadAttributes>,
) -> bool {
    &&& claimed_on(
        before,
        after,
        shard::shard_of(topic),
        WantView::Topic(topic),
        clock::time_text(now),
        lease,
        visible_text(now, visibility),
        r,
    )
    &&& claim_faithful(now, visibility)
}

/// What a worker gets that claims for all topics but some.
pub open spec fn claimed_excluding(
    before: Database,
    after: Database,
    skip: Seq<Seq<char>>,
    now: UtcTime,
    visibility: u64,
    lease: Seq<char>,
    r: Result<Option<ClaimedMessage>, BadAttributes>,
) -> bool {
    &&& claimed_anywhere(
        before,
        after,
        WantView::Excluding(skip),
        clock::time_text(now),
        lease,
        visible_text(now, visibility),
        r,
    )
    &&& claim_faithful(now, visibility)
}

fn visible_for(visibility: u64) -> (r: i64)
    ensures
        r == visible_seconds(visibility),
{
    if visibility <= 9223372036854775 {
        visibility as i64
    } else {
        30
    }
}

impl Database {
    /// Hands a message of shard `s` to a worker.
    fn claim_on(
        &mut self,
        s: usize,
        want: &Want,
        now: &str,
        lease: &str,
        visible_again: &str,
    ) -> (r: Result<Option<ClaimedMessage>, BadAttributes>)
        requires
            old(self).wf(),
            s < MESSAGE_SHARDS,
        ensures
            claimed_on(
                *old(self),
                *final(self),
                s as int,
                want@,
                now@,
                lease@,
                visible_again@,
                r,
            ),
    {
        let ghost before = *self;
        proof {
            assert(before.rows()[s as int] == before.shards@[s as int]@);
        }
        match self.shards[s].claim(want, now, lease, visible_again) {
            None => {
                proof {
                    assert(self.rows() =~= before.rows());
                }
                Ok(None)
            },
            Some(message) => {
                proof {
                    let i = messages::claim_place(before.rows()[s as int], want@, now@)->0;
                    assert(self.rows() =~= db::with_row(
                        before.rows(),
                        (s as int, i),
                        messages::as_claimed(
                            before.rows()[s as int][i],
                            lease@,
                            visible_again@,
                        ),
                    ));
                }
                self.bump_queue_depth(message.topic.as_str(), -1, 1);
                match json::parse_json(message.attributes.as_str()) {
                    json::Json::Invalid => Err(BadAttributes),
                    _ => Ok(Some(message)),
                }
            },
        }
    }

    /// Hands a message of any shard to a worker.
    fn claim_anywhere(&mut self, want: &Want, now: &str, lease: &str, visible_again: &str) -> (r:
        Result<Option<ClaimedMessage>, BadAttributes>)
        requires
            old(self).wf(),
        ensures
            claimed_anywhere(*old(self), *final(self), want@, now@, lease@, visible_again@, r),
    {
        let start: usize = self.cursor % MESSAGE_SHARDS;
        self.cursor = if self.cursor == usize::MAX {
            0
        } else {
            self.cursor + 1
        };
        let ghost moved = *self;
        let ghost all = moved.rows();
        let mut n: usize = 0;
        while n < MESSAGE_SHARDS
            invariant
                n <= MESSAGE_SHARDS,
                start < MESSAGE_SHARDS,
                moved.wf(),
                all == moved.rows(),
                queue_same(moved, *self),
                serving_shard(all, want@, now@, start as int, n as int) is None,
                moved == (Database { cursor: advanced(old(self).cursor), ..*old(self) }),
                start == old(self).cursor as int % 16,
                old(self).rows() == all,
            decreases MESSAGE_SHARDS - n,
        {
            let s: usize = (start + n) % MESSAGE_SHARDS;
            proof {
                assert(s == nth_shard(start as int, n as int));
            }
            let ghost here = *self;
            let r: Result<Option<ClaimedMessage>, BadAttributes> = self.claim_on(
                s,
                want,
                now,
                lease,
                visible_again,
            );
            let missed: bool = match &r {
                Ok(None) => true,
                _ => false,
            };
            if !missed {
                proof {
                    assert(messages::claim_place(all[s as int], want@, now@) is Some);
                    assert(serving_shard(all, want@, now@, start as int, n + 1) == Some(s as int));
                    lemma_serving_shard(all, want@, now@, start as int, n + 1, 16);
                    assert(claimed_on(
                        moved,
                        *self,
                        s as int,
                        want@,
                        now@,
                        lease@,
                        visible_again@,
                        r,
                    ));
                }
                return r;
            }
            n = n + 1;
        }
        Ok(None)
    }

    /// Hands the oldest message of a topic to a worker, at the time `now`.
    pub fn claim_next_for_topic_at(
        &mut self,
        topic: &str,
        now: UtcTime,
        visibility: u64,
        lease: &str,
    ) -> (r: Result<Option<ClaimedMessage>, BadAttributes>)
        requires
            old(self).wf(),
            now.valid(),
        ensures
            claimed_for_topic(*old(self), *final(self), topic@, now, visibility, lease@, r),
    {
        let at: String = clock::text_of(now);
        let visible_again: String = clock::text_of(clock::after(now, visible_for(visibility)));
        self.claim_on(
            shard::topic_shard(topic),
            &Want::Topic(topic.to_string()),
            at.as_str(),
            lease,
            visible_again.as_str(),
        )
    }

    /// Hands the oldest message of a topic to a worker, for `visibility` seconds
    /// and under a fresh lease.
    pub fn claim_next_for_topic(&mut self, topic: &str, visibility: u64) -> (r: Result<
        Option<ClaimedMessage>,
        BadAttributes,
    >)
        requires
            old(self).wf(),
        ensures
            exists|now: UtcTime, lease: Seq<char>|
                now.valid() && shard::is_uuid_text(lease) && #[trigger] claimed_for_topic(
                    *old(self),
                    *final(self),
                    topic@,
                    now,
                    visibility,
                    lease,
                    r,
                ),
    {
        let now: UtcTime = clock::now();
        let lease: String = shard::random_id();
        self.claim_next_for_topic_at(topic, now, visibility, lease.as_str())
    }

    /// Hands a message that a filter selects to a worker, at the time `now`.
    pub fn claim_next_for_filter_at(
        &mut self,
        filter: &str,
        now: UtcTime,
        visibility: u64,
        lease: &str,
    ) -> (r: Result<Option<ClaimedMessage>, BadAttributes>)
        requires
            old(self).wf(),
            now.valid(),
        ensures
            claimed_for_filter(*old(self), *final(self), filter@, now, visibility, lease@, r),
    {
        if !topic::is_wildcard_filter(filter) {
            return self.claim_next_for_topic_at(filter, now, visibility, lease);
        }
        let at: String = clock::text_of(now);
        let visible_again: String = clock::text_of(clock::after(now, visible_for(visibility)));
        self.claim_anywhere(
            &Want::Filter(filter.to_string()),
            at.as_str(),
            lease,
            visible_again.as_str(),
        )
    }

    /// Hands a message that a filter selects to a worker, for `visibility`
    /// seconds and under a fresh lease.
    pub fn claim_next_for_filter(&mut self, filter: &str, visibility: u64) -> (r: Result<
        Option<ClaimedMessage>,
        BadAttributes,
    >)
        requires
            old(self).wf(),
        ensures
            exists|now: UtcTime, lease: Seq<char>|
                now.valid() && shard::is_uuid_text(lease) && #[trigger] claimed_for_filter(
                    *old(self),
                    *final(self),
                    filter@,
                    now,
                    visibility,
                    lease,
                    r,
                ),
    {
        let now: UtcTime = clock::now();
        let lease: String = shard::random_id();
        self.claim_next_for_filter_at(filter, now, visibility, lease.as_str())
    }

    /// Hands a message of any topic but those to skip to a worker, at the time
    /// `now`.
    pub fn claim_next_excluding_at(
        &mut self,
        now: UtcTime,
        visibility: u64,
        skip_topics: Vec<String>,
        lease: &str,
    ) -> (r: Result<Option<ClaimedMessage>, BadAttributes>)
        requires
            old(self).wf(),
            now.valid(),
        ensures
            claimed_excluding(
                *old(self),
                *final(self),
                text::texts(skip_topics@),
                now,
                visibility,
                lease@,
                r,
            ),
    {
        let at: String = clock::text_of(now);
        let visible_again: String = clock::text_of(clock::after(now, visible_for(visibility)));
        self.claim_anywhere(
            &Want::Excluding(skip_topics),
            at.as_str(),
            lease,
            visible_again.as_str(),
        )
    }

    /// Hands a message of any topic but those to skip to a worker, for
    /// `visibility` seconds and under a fresh lease.
    pub fn claim_next_excluding(&mut self, visibility: u64, skip_topics: Vec<String>) -> (r: Result<
        Option<ClaimedMessage>,
        BadAttributes,
    >)
        requires
            old(self).wf(),
        ensures
            exists|now: UtcTime, lease: Seq<char>|
                now.valid() && shard::is_uuid_text(lease) && #[trigger] claimed_excluding(
                    *old(self),
                    *final(self),
                    text::texts(skip_topics@),
                    now,
                    visibility,
                    lease,
                    r,
                ),
    {
        let now: UtcTime = clock::now();
        let lease: String = shard::random_id();
        self.claim_next_excluding_at(now, visibility, skip_topics, lease.as_str())
    }
}

proof fn lemma_serving_shard(
    rows: Seq<db::Rows>,
    want: WantView,
    now: Seq<char>,
    start: int,
    n: int,
    m: int,
)
    requires
        n <= m,
        serving_shard(rows, want, now, start, n) is Some,
    ensures
        serving_shard(rows, want, now, start, m) == serving_shard(rows, want, now, start, n),
    decreases m - n,
{
    if n < m {
        lemma_serving_shard(rows, want, now, start, n, m - 1);
    }
}

} // verus!
