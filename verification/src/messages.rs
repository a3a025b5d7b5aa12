//! The messages of one shard and their life cycle.
//!
//! A message is pending until a worker claims it. The worker holds it under a
//! lease until it is delivered, fails, is dropped or released, or until its
//! visibility ends and it is reclaimed.
use vstd::prelude::*;
use vstd::string::*;

use crate::clock;
use crate::clock::UtcTime;
use crate::model::ClaimedMessage;
use crate::text;
use crate::topic;

verus! {

#[derive(Debug, Clone, Copy, PartialEq, Eq, Structural)]
pub enum MessageStatus {
    Pending,
    Processing,
    Delivered,
    Failed,
    Dropped,
}

impl MessageStatus {
    pub open spec fn name(self) -> Seq<char> {
        match self {
            MessageStatus::Pending => "pending"@,
            MessageStatus::Processing => "processing"@,
            MessageStatus::Delivered => "delivered"@,
            MessageStatus::Failed => "failed"@,
            MessageStatus::Dropped => "dropped"@,
        }
    }

    pub fn as_str(self) -> (r: &'static str)
        ensures
            r@ == self.name(),
    {
        match self {
            MessageStatus::Pending => "pending",
            MessageStatus::Processing => "processing",
            MessageStatus::Delivered => "delivered",
            MessageStatus::Failed => "failed",
            MessageStatus::Dropped => "dropped",
        }
    }

    /// The status that a stored word names.
    pub fn parse(word: &str) -> (r: Option<MessageStatus>)
        ensures
            r matches Some(status) ==> status.name() == word@,
            r is None ==> forall|status: MessageStatus| #[trigger] status.name() != word@,
    {
        if text::text_eq(word, "pending") {
            Some(MessageStatus::Pending)
        } else if text::text_eq(word, "processing") {
            Some(MessageStatus::Processing)
        } else if text::text_eq(word, "delivered") {
            Some(MessageStatus::Delivered)
        } else if text::text_eq(word, "failed") {
            Some(MessageStatus::Failed)
        } else if text::text_eq(word, "dropped") {
            Some(MessageStatus::Dropped)
        } else {
            None
        }
    }
}

/// A stored message. Times are RFC 3339 text, attributes JSON text.
#[derive(Debug)]
pub struct MessageRow {
    pub id: String,
    pub idempotency_key: Option<String>,
    pub topic: String,
    pub payload: Vec<u8>,
    pub attributes: String,
    pub status: MessageStatus,
    pub attempts: i64,
    pub next_attempt_at: String,
    pub last_error: Option<String>,
    pub created_at: String,
    pub delivered_at: Option<String>,
    pub lease: Option<String>,
}

#[verifier::ext_equal]
pub struct MessageView {
    pub id: Seq<char>,
    pub idempotency_key: Option<Seq<char>>,
    pub topic: Seq<char>,
    pub payload: Seq<u8>,
    pub attributes: Seq<char>,
    pub status: MessageStatus,
    pub attempts: i64,
    pub next_attempt_at: Seq<char>,
    pub last_error: Option<Seq<char>>,
    pub created_at: Seq<char>,
    pub delivered_at: Option<Seq<char>>,
    pub lease: Option<Seq<char>>,
}

impl View for MessageRow {
    type V = MessageView;

    open spec fn view(&self) -> MessageView {
        MessageView {
            id: self.id@,
            idempotency_key: text::opt_text(self.idempotency_key),
            topic: self.topic@,
            payload: self.payload@,
            attributes: self.attributes@,
            status: self.status,
            attempts: self.attempts,
            next_attempt_at: self.next_attempt_at@,
            last_error: text::opt_text(self.last_error),
            created_at: self.created_at@,
            delivered_at: text::opt_text(self.delivered_at),
            lease: text::opt_text(self.lease),
        }
    }
}

pub open spec fn row_views(rows: Seq<MessageRow>) -> Seq<MessageView> {
    rows.map_values(|r: MessageRow| r@)
}

/// Identifiers are unique, and so are idempotency keys.
pub open spec fn unique(rows: Seq<MessageView>) -> bool {
    &&& forall|i: int, j: int|
        0 <= i < j < rows.len() ==> (#[trigger] rows[i]).id != (#[trigger] rows[j]).id
    &&& forall|i: int, j: int|
        0 <= i < j < rows.len() ==> ((#[trigger] rows[i]).idempotency_key is None || rows[i].idempotency_key
            != (#[trigger] rows[j]).idempotency_key)
}

/// The messages of one shard, in the order in which they came.
pub struct MessageTable {
    rows: Vec<MessageRow>,
}

impl View for MessageTable {
    type V = Seq<MessageView>;

    closed spec fn view(&self) -> Seq<MessageView> {
        row_views(self.rows@)
    }
}

// ------------------------------------------------------------------- models

/// Whether `a` and `b` cannot both be stored.
pub open spec fn clash(a: MessageView, b: MessageView) -> bool {
    a.id == b.id || (b.idempotency_key is Some && a.idempotency_key == b.idempotency_key)
}

pub open spec fn clashes(rows: Seq<MessageView>, m: MessageView) -> bool {
    exists|i: int| 0 <= i < rows.len() && clash(#[trigger] rows[i], m)
}

/// The rows with `m` behind them, unless it clashes with one of them.
pub open spec fn inserted(rows: Seq<MessageView>, m: MessageView) -> Seq<MessageView> {
    if clashes(rows, m) {
        rows
    } else {
        rows.push(m)
    }
}

/// Place of the first row that satisfies `pred`.
pub open spec fn first_place(rows: Seq<MessageView>, pred: spec_fn(MessageView) -> bool) -> Option<
    int,
>
    decreases rows.len(),
{
    if rows.len() == 0 {
        None
    } else {
        match first_place(rows.drop_last(), pred) {
            Some(i) => Some(i),
            None => if pred(rows.last()) {
                Some(rows.len() - 1)
            } else {
                None
            },
        }
    }
}

pub open spec fn has_key(key: Seq<char>) -> spec_fn(MessageView) -> bool {
    |m: MessageView| m.idempotency_key == Some(key)
}

pub open spec fn has_id(id: Seq<char>) -> spec_fn(MessageView) -> bool {
    |m: MessageView| m.id == id
}

/// Held by a worker under the given lease.
pub open spec fn held_under(id: Seq<char>, lease: Seq<char>) -> spec_fn(MessageView) -> bool {
    |m: MessageView| m.id == id && m.lease == Some(lease) && m.status == MessageStatus::Processing
}

/// Place of the row with this identifier that is held under this lease.
pub open spec fn held_place(rows: Seq<MessageView>, id: Seq<char>, lease: Seq<char>) -> Option<int> {
    first_place(rows, held_under(id, lease))
}

/// A message waiting for a worker whose time has come.
pub open spec fn ready(m: MessageView, now: Seq<char>) -> bool {
    m.status == MessageStatus::Pending && !text::text_less(now, m.next_attempt_at)
}

/// Which messages a worker asks for.
pub enum Want {
    /// Those of one topic.
    Topic(String),
    /// Those of the topics that a filter selects, looking at the first
    /// [`SCAN_LIMIT`] messages that are ready.
    Filter(String),
    /// Those of all topics but these.
    Excluding(Vec<String>),
}

/// How many ready messages a wildcard claim looks at.
pub const SCAN_LIMIT: usize = 64;

/// Which messages a worker asks for, as a mathematical value.
pub enum WantView {
    Topic(Seq<char>),
    Filter(Seq<char>),
    Excluding(Seq<Seq<char>>),
}

impl WantView {
    pub open spec fn wants(self, topic: Seq<char>) -> bool {
        match self {
            WantView::Topic(name) => topic == name,
            WantView::Filter(filter) => topic::selects(filter, topic),
            WantView::Excluding(names) => !names.contains(topic),
        }
    }
}

impl View for Want {
    type V = WantView;

    open spec fn view(&self) -> WantView {
        match self {
            Want::Topic(name) => WantView::Topic(name@),
            Want::Filter(filter) => WantView::Filter(filter@),
            Want::Excluding(names) => WantView::Excluding(text::texts(names@)),
        }
    }
}

impl Want {
    pub fn accepts(&self, name: &str) -> (r: bool)
        ensures
            r == self@.wants(name@),
    {
        match self {
            Want::Topic(wanted) => text::text_eq(name, wanted.as_str()),
            Want::Filter(filter) => topic::filter_matches(filter.as_str(), name),
            Want::Excluding(names) => !text::contains_text(names, name),
        }
    }
}

pub open spec fn claimable(want: WantView, now: Seq<char>) -> spec_fn(MessageView) -> bool {
    |m: MessageView| ready(m, now) && want.wants(m.topic)
}

/// Place of the oldest row that satisfies `pred`; among rows of one age the one
/// that came first.
pub open spec fn oldest_place(rows: Seq<MessageView>, pred: spec_fn(MessageView) -> bool) -> Option<
    int,
>
    decreases rows.len(),
{
    if rows.len() == 0 {
        None
    } else {
        let before = oldest_place(rows.drop_last(), pred);
        if !pred(rows.last()) {
            before
        } else {
            match before {
                None => Some(rows.len() - 1),
                Some(i) => if text::text_less(rows.last().created_at, rows[i].created_at) {
                    Some(rows.len() - 1)
                } else {
                    before
                },
            }
        }
    }
}

/// Whether row `j` is served before row `i`.
pub open spec fn served_before(rows: Seq<MessageView>, j: int, i: int) -> bool {
    text::text_less(rows[j].created_at, rows[i].created_at) || (rows[j].created_at
        == rows[i].created_at && j < i)
}

/// How many of the first `n` rows are ready and served before row `i`.
pub open spec fn ahead(rows: Seq<MessageView>, now: Seq<char>, i: int, n: int) -> int
    decreases n,
{
    if n <= 0 {
        0
    } else {
        ahead(rows, now, i, n - 1) + if ready(rows[n - 1], now) && served_before(rows, n - 1, i) {
            1int
        } else {
            0int
        }
    }
}

/// Place of the row that a worker gets.
pub open spec fn claim_place(rows: Seq<MessageView>, want: WantView, now: Seq<char>) -> Option<int> {
    match oldest_place(rows, claimable(want, now)) {
        Some(i) => if want is Filter && ahead(rows, now, i, rows.len() as int) >= SCAN_LIMIT {
            None
        } else {
            Some(i)
        },
        None => None,
    }
}

pub open spec fn next_attempt_number(attempts: i64) -> i64 {
    if attempts == i64::MAX {
        i64::MAX
    } else {
        (attempts + 1) as i64
    }
}

/// The row once a worker holds it.
pub open spec fn as_claimed(m: MessageView, lease: Seq<char>, visible_again: Seq<char>) -> MessageView {
    MessageView {
        status: MessageStatus::Processing,
        attempts: next_attempt_number(m.attempts),
        lease: Some(lease),
        next_attempt_at: visible_again,
        ..m
    }
}

/// The row once it waits for a worker again.
pub open spec fn as_pending(m: MessageView) -> MessageView {
    MessageView { status: MessageStatus::Pending, lease: None, ..m }
}

pub open spec fn as_delivered(m: MessageView, now: Seq<char>) -> MessageView {
    MessageView {
        status: MessageStatus::Delivered,
        delivered_at: Some(now),
        last_error: None,
        lease: None,
        ..m
    }
}

pub open spec fn as_dropped(m: MessageView, error: Seq<char>) -> MessageView {
    MessageView {
        status: MessageStatus::Dropped,
        last_error: Some(error),
        lease: None,
        ..m
    }
}

/// The status of a message after a failed attempt.
pub open spec fn status_after_failure(attempts: i64, max_attempts: i64) -> MessageStatus {
    if attempts >= max_attempts {
        MessageStatus::Failed
    } else {
        MessageStatus::Pending
    }
}

pub open spec fn as_failed(
    m: MessageView,
    error: Seq<char>,
    max_attempts: i64,
    next_attempt_at: Seq<char>,
) -> MessageView {
    MessageView {
        status: status_after_failure(m.attempts, max_attempts),
        next_attempt_at,
        last_error: Some(error),
        lease: None,
        ..m
    }
}

/// The rows that satisfy `pred`, in order.
pub open spec fn kept(rows: Seq<MessageView>, pred: spec_fn(MessageView) -> bool) -> Seq<
    MessageView,
>
    decreases rows.len(),
{
    if rows.len() == 0 {
        rows
    } else {
        let init = kept(rows.drop_last(), pred);
        if pred(rows.last()) {
            init.push(rows.last())
        } else {
            init
        }
    }
}

/// The number of rows that satisfy `pred`.
pub open spec fn count(rows: Seq<MessageView>, pred: spec_fn(MessageView) -> bool) -> int {
    kept(rows, pred).len() as int
}

/// A worker's visibility has ended.
pub open spec fn stale(now: Seq<char>) -> spec_fn(MessageView) -> bool {
    |m: MessageView|
        m.status == MessageStatus::Processing && !text::text_less(now, m.next_attempt_at)
}

pub open spec fn in_hand() -> spec_fn(MessageView) -> bool {
    |m: MessageView| m.status == MessageStatus::Processing
}

pub open spec fn waiting_for(topic: Seq<char>) -> spec_fn(MessageView) -> bool {
    |m: MessageView| m.topic == topic && m.status == MessageStatus::Pending
}

/// `rows` with `change` applied to those that satisfy `pred`.
pub open spec fn changed(
    rows: Seq<MessageView>,
    pred: spec_fn(MessageView) -> bool,
    change: spec_fn(MessageView) -> MessageView,
) -> Seq<MessageView> {
    rows.map_values(
        |m: MessageView|
            if pred(m) {
                change(m)
            } else {
                m
            },
    )
}

pub open spec fn to_pending() -> spec_fn(MessageView) -> MessageView {
    |m: MessageView| as_pending(m)
}

pub open spec fn to_dropped(error: Seq<char>) -> spec_fn(MessageView) -> MessageView {
    |m: MessageView| as_dropped(m, error)
}

pub open spec fn not_of_topic(topic: Seq<char>) -> spec_fn(MessageView) -> bool {
    |m: MessageView| m.topic != topic
}

pub open spec fn not_created_before(cutoff: Seq<char>) -> spec_fn(MessageView) -> bool {
    |m: MessageView| !text::text_less(m.created_at, cutoff)
}

pub open spec fn delivered_before(m: MessageView, cutoff: Seq<char>) -> bool {
    m.status == MessageStatus::Delivered && (m.delivered_at matches Some(at) && text::text_less(
        at,
        cutoff,
    ))
}

pub open spec fn not_delivered_before(cutoff: Seq<char>) -> spec_fn(MessageView) -> bool {
    |m: MessageView| !delivered_before(m, cutoff)
}

/// Whether a filter names the topic of a message: as a pattern if it has a
/// wildcard, else literally.
pub open spec fn picks(filter: Seq<char>, topic: Seq<char>) -> bool {
    if topic::wild(filter) {
        topic::selects(filter, topic)
    } else {
        topic == filter
    }
}

pub open spec fn not_picked(filter: Seq<char>) -> spec_fn(MessageView) -> bool {
    |m: MessageView| !picks(filter, m.topic)
}

pub open spec fn picked(filter: Seq<char>) -> spec_fn(MessageView) -> bool {
    |m: MessageView| picks(filter, m.topic)
}

/// A message to be stored.
#[verifier::ext_equal]
pub struct InputView {
    pub id: Seq<char>,
    pub idempotency_key: Option<Seq<char>>,
    pub topic: Seq<char>,
    pub payload: Seq<u8>,
    pub attributes: Seq<char>,
}

/// A message that waits for its first attempt.
pub open spec fn fresh_row(item: InputView, now: Seq<char>) -> MessageView {
    MessageView {
        id: item.id,
        idempotency_key: item.idempotency_key,
        topic: item.topic,
        payload: item.payload,
        attributes: item.attributes,
        status: MessageStatus::Pending,
        attempts: 0,
        next_attempt_at: now,
        last_error: None,
        created_at: now,
        delivered_at: None,
        lease: None,
    }
}

/// Why a message that clashes with a stored one has no counterpart.
#[derive(Debug, Clone, Copy, PartialEq, Eq, Structural)]
pub enum StoreFault {
    /// The identifier is taken and the message has no idempotency key.
    NoKey,
    /// The identifier is taken and no stored message has the key.
    UnknownKey,
}

/// Stores a message: its identifier, or that of the message stored before under
/// its idempotency key; whether it was there before; and the rows afterwards.
#[verifier::opaque]
pub open spec fn stored(rows: Seq<MessageView>, item: InputView, now: Seq<char>) -> (
    Result<(Seq<char>, bool), StoreFault>,
    Seq<MessageView>,
) {
    if !clashes(rows, fresh_row(item, now)) {
        (Ok((item.id, false)), rows.push(fresh_row(item, now)))
    } else {
        match item.idempotency_key {
            None => (Err(StoreFault::NoKey), rows),
            Some(key) => match first_place(rows, has_key(key)) {
                Some(i) => (Ok((rows[i].id, true)), rows),
                None => (Err(StoreFault::UnknownKey), rows),
            },
        }
    }
}

/// Storing adds at most one row, behind those that are there, and none where it
/// fails.
pub proof fn lemma_stored_grows(rows: Seq<MessageView>, item: InputView, now: Seq<char>)
    ensures
        stored(rows, item, now).1.len() >= rows.len(),
        stored(rows, item, now).1.take(rows.len() as int) == rows,
        stored(rows, item, now).0 is Err ==> stored(rows, item, now).1 == rows,
{
    reveal(stored);
    assert(rows.take(rows.len() as int) =~= rows);
    assert(rows.push(fresh_row(item, now)).take(rows.len() as int) =~= rows);
}

/// A message that is stored or found is there afterwards, under the identifier
/// that is given.
pub proof fn lemma_stored_is_there(rows: Seq<MessageView>, item: InputView, now: Seq<char>) -> (k:
    int)
    requires
        stored(rows, item, now).0 is Ok,
    ensures
        0 <= k < stored(rows, item, now).1.len(),
        stored(rows, item, now).1[k].id == stored(rows, item, now).0->Ok_0.0,
{
    reveal(stored);
    if !clashes(rows, fresh_row(item, now)) {
        rows.len() as int
    } else {
        let key = item.idempotency_key->0;
        lemma_first_place(rows, has_key(key));
        first_place(rows, has_key(key))->0
    }
}

// ------------------------------------------------------------ uniqueness

/// Rows with the same identifiers and keys are as unique.
pub proof fn lemma_unique_same_names(a: Seq<MessageView>, b: Seq<MessageView>)
    requires
        unique(a),
        a.len() == b.len(),
        forall|i: int|
            0 <= i < a.len() ==> (#[trigger] b[i]).id == a[i].id && b[i].idempotency_key
                == a[i].idempotency_key,
    ensures
        unique(b),
{
    assert forall|i: int, j: int| 0 <= i < j < b.len() implies (#[trigger] b[i]).id != (
    #[trigger] b[j]).id && (b[i].idempotency_key is None || b[i].idempotency_key
        != b[j].idempotency_key) by {
        assert(a[i].id != a[j].id);
        assert(a[i].idempotency_key is None || a[i].idempotency_key != a[j].idempotency_key);
    }
}

pub proof fn lemma_unique_push(rows: Seq<MessageView>, m: MessageView)
    requires
        unique(rows),
        !clashes(rows, m),
    ensures
        unique(rows.push(m)),
{
    let all = rows.push(m);
    assert forall|i: int, j: int| 0 <= i < j < all.len() implies (#[trigger] all[i]).id != (
    #[trigger] all[j]).id && (all[i].idempotency_key is None || all[i].idempotency_key
        != all[j].idempotency_key) by {
        if j < rows.len() {
            assert(rows[i].id != rows[j].id);
            assert(rows[i].idempotency_key is None || rows[i].idempotency_key
                != rows[j].idempotency_key);
        } else {
            assert(!clash(rows[i], m));
        }
    }
}

proof fn lemma_unique_part(rows: Seq<MessageView>, from: int, to: int)
    requires
        unique(rows),
        0 <= from <= to <= rows.len(),
    ensures
        unique(rows.subrange(from, to)),
{
    let part = rows.subrange(from, to);
    assert forall|i: int, j: int| 0 <= i < j < part.len() implies (#[trigger] part[i]).id != (
    #[trigger] part[j]).id && (part[i].idempotency_key is None || part[i].idempotency_key
        != part[j].idempotency_key) by {
        assert(rows[from + i].id != rows[from + j].id);
        assert(rows[from + i].idempotency_key is None || rows[from + i].idempotency_key
            != rows[from + j].idempotency_key);
    }
}

/// Every row that satisfies the predicate is kept.
pub proof fn lemma_kept_all(rows: Seq<MessageView>, pred: spec_fn(MessageView) -> bool)
    ensures
        forall|m: MessageView| #[trigger]
            rows.contains(m) && pred(m) ==> kept(rows, pred).contains(m),
    decreases rows.len(),
{
    if rows.len() > 0 {
        let init = rows.drop_last();
        lemma_kept_all(init, pred);
        let all = kept(rows, pred);
        assert forall|m: MessageView| #[trigger] rows.contains(m) && pred(m) implies all.contains(
            m,
        ) by {
            let k = rows.index_of(m);
            if k < init.len() {
                assert(init[k] == m);
                assert(init.contains(m));
                let x = kept(init, pred).index_of(m);
                assert(all[x] == m);
            } else {
                assert(all[all.len() - 1] == m);
            }
        }
    }
}

/// What is kept comes from the rows.
pub proof fn lemma_kept_from(rows: Seq<MessageView>, pred: spec_fn(MessageView) -> bool)
    ensures
        kept(rows, pred).len() <= rows.len(),
        forall|i: int|
            0 <= i < kept(rows, pred).len() ==> rows.contains(#[trigger] kept(rows, pred)[i])
                && pred(kept(rows, pred)[i]),
    decreases rows.len(),
{
    if rows.len() > 0 {
        let init = rows.drop_last();
        lemma_kept_from(init, pred);
        let all = kept(rows, pred);
        assert forall|i: int| 0 <= i < all.len() implies rows.contains(#[trigger] all[i]) && pred(
            all[i],
        ) by {
            if i < kept(init, pred).len() {
                assert(all[i] == kept(init, pred)[i]);
                let k = init.index_of(all[i]);
                assert(rows[k] == all[i]);
            } else {
                assert(all[i] == rows.last());
                assert(rows[rows.len() - 1] == all[i]);
            }
        }
    }
}

pub proof fn lemma_unique_kept(rows: Seq<MessageView>, pred: spec_fn(MessageView) -> bool)
    requires
        unique(rows),
    ensures
        unique(kept(rows, pred)),
    decreases rows.len(),
{
    if rows.len() > 0 {
        let init = rows.drop_last();
        assert(init =~= rows.subrange(0, rows.len() - 1));
        lemma_unique_part(rows, 0, rows.len() - 1);
        lemma_unique_kept(init, pred);
        lemma_kept_from(init, pred);
        if pred(rows.last()) {
            let some = kept(init, pred);
            assert(!clashes(some, rows.last())) by {
                if clashes(some, rows.last()) {
                    let i = choose|i: int|
                        0 <= i < some.len() && clash(#[trigger] some[i], rows.last());
                    let k = init.index_of(some[i]);
                    assert(init.contains(some[i]));
                    assert(rows[k] == some[i]);
                    assert(rows[k].id != rows[rows.len() - 1].id);
                    assert(rows[k].idempotency_key is None || rows[k].idempotency_key
                        != rows[rows.len() - 1].idempotency_key);
                }
            }
            lemma_unique_push(some, rows.last());
        }
    }
}

pub proof fn lemma_first_place(rows: Seq<MessageView>, pred: spec_fn(MessageView) -> bool)
    ensures
        match first_place(rows, pred) {
            Some(i) => 0 <= i < rows.len() && pred(rows[i]),
            None => forall|i: int| 0 <= i < rows.len() ==> !pred(#[trigger] rows[i]),
        },
    decreases rows.len(),
{
    if rows.len() > 0 {
        let init = rows.drop_last();
        lemma_first_place(init, pred);
        if first_place(rows, pred) is None {
            assert forall|i: int| 0 <= i < rows.len() implies !pred(#[trigger] rows[i]) by {
                if i < init.len() {
                    assert(!pred(init[i]));
                }
            }
        }
    }
}

/// The oldest row satisfies the predicate and is served before every other row
/// that does.
pub proof fn lemma_oldest_place(rows: Seq<MessageView>, pred: spec_fn(MessageView) -> bool)
    ensures
        match oldest_place(rows, pred) {
            Some(i) => {
                &&& 0 <= i < rows.len()
                &&& pred(rows[i])
                &&& forall|j: int|
                    0 <= j < rows.len() && pred(#[trigger] rows[j]) && j != i ==> served_before(
                        rows,
                        i,
                        j,
                    )
            },
            None => forall|i: int| 0 <= i < rows.len() ==> !pred(#[trigger] rows[i]),
        },
    decreases rows.len(),
{
    if rows.len() > 0 {
        let init = rows.drop_last();
        let last = rows.last();
        let n = rows.len() - 1;
        lemma_oldest_place(init, pred);
        match oldest_place(rows, pred) {
            None => {
                assert forall|i: int| 0 <= i < rows.len() implies !pred(#[trigger] rows[i]) by {
                    if i < n {
                        assert(!pred(init[i]));
                    }
                }
            },
            Some(i) => {
                assert forall|j: int|
                    0 <= j < rows.len() && pred(#[trigger] rows[j]) && j != i implies served_before(
                    rows,
                    i,
                    j,
                ) by {
                    match oldest_place(init, pred) {
                        None => {
                            if j < n {
                                assert(!pred(init[j]));
                            }
                        },
                        Some(k) => {
                            text::lemma_text_less_order(
                                last.created_at,
                                init[k].created_at,
                                rows[j].created_at,
                            );
                            text::lemma_text_less_order(
                                rows[j].created_at,
                                last.created_at,
                                init[k].created_at,
                            );
                            if j < n {
                                assert(pred(init[j]));
                                if j != k {
                                    assert(served_before(init, k, j));
                                }
                            }
                        },
                    }
                }
            },
        }
    }
}

// -------------------------------------------------------- executable part

/// Copies an optional string.
fn copy_opt(s: &Option<String>) -> (r: Option<String>)
    ensures
        text::opt_text(r) == text::opt_text(*s),
{
    match s {
        Some(t) => Some(t.clone()),
        None => None,
    }
}

/// Whether an optional string holds exactly `t`.
fn opt_is(s: &Option<String>, t: &str) -> (r: bool)
    ensures
        r == (text::opt_text(*s) == Some(t@)),
{
    match s {
        Some(own) => text::text_eq(own.as_str(), t),
        None => false,
    }
}

impl Clone for MessageRow {
    fn clone(&self) -> (r: Self)
        ensures
            r@ == self@,
    {
        let payload: Vec<u8> = self.payload.clone();
        proof {
            assert(payload@ =~= self.payload@);
        }
        MessageRow {
            id: self.id.clone(),
            idempotency_key: copy_opt(&self.idempotency_key),
            topic: self.topic.clone(),
            payload,
            attributes: self.attributes.clone(),
            status: self.status,
            attempts: self.attempts,
            next_attempt_at: self.next_attempt_at.clone(),
            last_error: copy_opt(&self.last_error),
            created_at: self.created_at.clone(),
            delivered_at: copy_opt(&self.delivered_at),
            lease: copy_opt(&self.lease),
        }
    }
}

/// The row as a worker sees it.
pub open spec fn handed(m: MessageView, lease: Seq<char>) -> crate::model::ClaimedView {
    crate::model::ClaimedView {
        id: m.id,
        topic: m.topic,
        payload: m.payload,
        attributes: m.attributes,
        created_at: m.created_at,
        lease,
    }
}

impl MessageTable {
    #[verifier::type_invariant]
    spec fn well_formed(self) -> bool {
        unique(row_views(self.rows@))
    }

    pub fn new() -> (r: MessageTable)
        ensures
            r@ == Seq::<MessageView>::empty(),
    {
        let rows: Vec<MessageRow> = Vec::new();
        proof {
            assert(row_views(rows@) =~= Seq::<MessageView>::empty());
        }
        MessageTable { rows }
    }

    /// The number of rows. Identifiers and keys of the rows are unique.
    pub fn len(&self) -> (r: usize)
        ensures
            r == self@.len(),
            unique(self@),
    {
        proof {
            use_type_invariant(self);
        }
        self.rows.len()
    }

    /// The row at place `i`.
    pub fn row(&self, i: usize) -> (r: &MessageRow)
        requires
            i < self@.len(),
        ensures
            r@ == self@[i as int],
    {
        &self.rows[i]
    }

    fn take_rows(&mut self) -> (r: Vec<MessageRow>)
        ensures
            row_views(r@) == old(self)@,
            unique(old(self)@),
            final(self)@ == Seq::<MessageView>::empty(),
    {
        proof {
            use_type_invariant(&*self);
        }
        let mut taken: MessageTable = MessageTable::new();
        std::mem::swap(self, &mut taken);
        taken.rows
    }

    fn find_clash(&self, row: &MessageRow) -> (r: bool)
        ensures
            r == clashes(self@, row@),
    {
        let mut i: usize = 0;
        while i < self.rows.len()
            invariant
                i <= self.rows@.len(),
                forall|k: int| 0 <= k < i ==> !clash(#[trigger] self@[k], row@),
            decreases self.rows.len() - i,
        {
            let same_key: bool = match &row.idempotency_key {
                Some(key) => opt_is(&self.rows[i].idempotency_key, key.as_str()),
                None => false,
            };
            assert(self@[i as int] == self.rows@[i as int]@);
            if same_key || text::text_eq(self.rows[i].id.as_str(), row.id.as_str()) {
                assert(clash(self@[i as int], row@));
                return true;
            }
            i = i + 1;
        }
        false
    }

    /// Stores `row` unless it clashes with a stored one; says whether it did.
    pub fn insert(&mut self, row: MessageRow) -> (r: bool)
        ensures
            r == !clashes(old(self)@, row@),
            final(self)@ == inserted(old(self)@, row@),
            unique(final(self)@),
    {
        proof {
            use_type_invariant(&*self);
        }
        if self.find_clash(&row) {
            return false;
        }
        let ghost before = self@;
        let mut rows: Vec<MessageRow> = self.take_rows();
        let ghost added = row@;
        rows.push(row);
        proof {
            assert(row_views(rows@) =~= before.push(added));
            lemma_unique_push(before, added);
        }
        *self = MessageTable { rows };
        true
    }

    /// Stores a message that waits for its first attempt.
    pub fn store(
        &mut self,
        id: String,
        idempotency_key: Option<String>,
        topic: String,
        payload: Vec<u8>,
        attributes: String,
        now: &str,
    ) -> (r: Result<(String, bool), StoreFault>)
        ensures
            ({
                let item = InputView {
                    id: id@,
                    idempotency_key: text::opt_text(idempotency_key),
                    topic: topic@,
                    payload: payload@,
                    attributes: attributes@,
                };
                let (outcome, after) = stored(old(self)@, item, now@);
                &&& final(self)@ == after
                &&& match r {
                    Ok(found) => outcome == Ok::<(Seq<char>, bool), StoreFault>(
                        (found.0@, found.1),
                    ),
                    Err(fault) => outcome == Err::<(Seq<char>, bool), StoreFault>(fault),
                }
            }),
    {
        proof {
            reveal(stored);
        }
        let key: Option<String> = copy_opt(&idempotency_key);
        let own: String = id.clone();
        let row: MessageRow = MessageRow {
            id,
            idempotency_key,
            topic,
            payload,
            attributes,
            status: MessageStatus::Pending,
            attempts: 0,
            next_attempt_at: now.to_string(),
            last_error: None,
            created_at: now.to_string(),
            delivered_at: None,
            lease: None,
        };
        if self.insert(row) {
            return Ok((own, false));
        }
        match key {
            None => Err(StoreFault::NoKey),
            Some(text) => match self.find_key(text.as_str()) {
                Some(i) => Ok((self.rows[i].id.clone(), true)),
                None => Err(StoreFault::UnknownKey),
            },
        }
    }

    /// Place of the message with the given idempotency key.
    pub fn find_key(&self, key: &str) -> (r: Option<usize>)
        ensures
            match r {
                Some(i) => first_place(self@, has_key(key@)) == Some(i as int) && i < self@.len(),
                None => first_place(self@, has_key(key@)) is None,
            },
    {
        let mut found: Option<usize> = None;
        let mut i: usize = 0;
        proof {
            assert(self@.take(0) =~= Seq::<MessageView>::empty());
        }
        while i < self.rows.len()
            invariant
                i <= self.rows@.len(),
                self@.len() == self.rows@.len(),
                match found {
                    Some(k) => first_place(self@.take(i as int), has_key(key@)) == Some(k as int)
                        && k < i,
                    None => first_place(self@.take(i as int), has_key(key@)) is None,
                },
            decreases self.rows.len() - i,
        {
            proof {
                assert(self@.take(i + 1).drop_last() =~= self@.take(i as int));
                assert(self@.take(i + 1).last() == self.rows@[i as int]@);
            }
            if found.is_none() && opt_is(&self.rows[i].idempotency_key, key) {
                found = Some(i);
            }
            i = i + 1;
        }
        proof {
            assert(self@.take(i as int) =~= self@);
        }
        found
    }

    /// Place of the message with the given identifier.
    pub fn find_id(&self, id: &str) -> (r: Option<usize>)
        ensures
            match r {
                Some(i) => first_place(self@, has_id(id@)) == Some(i as int) && i < self@.len(),
                None => first_place(self@, has_id(id@)) is None,
            },
    {
        let mut found: Option<usize> = None;
        let mut i: usize = 0;
        proof {
            assert(self@.take(0) =~= Seq::<MessageView>::empty());
        }
        while i < self.rows.len()
            invariant
                i <= self.rows@.len(),
                self@.len() == self.rows@.len(),
                match found {
                    Some(k) => first_place(self@.take(i as int), has_id(id@)) == Some(k as int) && k
                        < i,
                    None => first_place(self@.take(i as int), has_id(id@)) is None,
                },
            decreases self.rows.len() - i,
        {
            proof {
                assert(self@.take(i + 1).drop_last() =~= self@.take(i as int));
                assert(self@.take(i + 1).last() == self.rows@[i as int]@);
            }
            if found.is_none() && text::text_eq(self.rows[i].id.as_str(), id) {
                found = Some(i);
            }
            i = i + 1;
        }
        proof {
            assert(self@.take(i as int) =~= self@);
        }
        found
    }

    /// Place of the message that is held under the given lease.
    pub fn find_held(&self, id: &str, lease: &str) -> (r: Option<usize>)
        ensures
            match r {
                Some(i) => held_place(self@, id@, lease@) == Some(i as int) && i < self@.len()
                    && held_under(id@, lease@)(self@[i as int]),
                None => held_place(self@, id@, lease@) is None,
            },
    {
        let mut found: Option<usize> = None;
        let mut i: usize = 0;
        proof {
            assert(self@.take(0) =~= Seq::<MessageView>::empty());
        }
        while i < self.rows.len()
            invariant
                i <= self.rows@.len(),
                self@.len() == self.rows@.len(),
                match found {
                    Some(k) => held_place(self@.take(i as int), id@, lease@) == Some(k as int) && k
                        < i,
                    None => held_place(self@.take(i as int), id@, lease@) is None,
                },
            decreases self.rows.len() - i,
        {
            proof {
                assert(self@.take(i + 1).drop_last() =~= self@.take(i as int));
                assert(self@.take(i + 1).last() == self.rows@[i as int]@);
            }
            if found.is_none() && self.rows[i].status == MessageStatus::Processing && opt_is(
                &self.rows[i].lease,
                lease,
            ) && text::text_eq(self.rows[i].id.as_str(), id) {
                found = Some(i);
            }
            i = i + 1;
        }
        proof {
            assert(self@.take(i as int) =~= self@);
            lemma_first_place(self@, held_under(id@, lease@));
        }
        found
    }

    /// Whether the message at place `i` is ready.
    fn is_ready(&self, i: usize, now: &str) -> (r: bool)
        requires
            i < self@.len(),
        ensures
            r == ready(self@[i as int], now@),
    {
        self.rows[i].status == MessageStatus::Pending && !text::less(
            now,
            self.rows[i].next_attempt_at.as_str(),
        )
    }

    fn find_oldest(&self, want: &Want, now: &str) -> (r: Option<usize>)
        ensures
            match r {
                Some(i) => oldest_place(self@, claimable(want@, now@)) == Some(i as int) && i
                    < self@.len(),
                None => oldest_place(self@, claimable(want@, now@)) is None,
            },
    {
        let mut best: Option<usize> = None;
        let mut i: usize = 0;
        let ghost pred = claimable(want@, now@);
        proof {
            assert(self@.take(0) =~= Seq::<MessageView>::empty());
        }
        while i < self.rows.len()
            invariant
                i <= self.rows@.len(),
                self@.len() == self.rows@.len(),
                pred == claimable(want@, now@),
                match best {
                    Some(k) => oldest_place(self@.take(i as int), pred) == Some(k as int) && k < i,
                    None => oldest_place(self@.take(i as int), pred) is None,
                },
            decreases self.rows.len() - i,
        {
            proof {
                assert(self@.take(i + 1).drop_last() =~= self@.take(i as int));
                assert(self@.take(i + 1).last() == self.rows@[i as int]@);
                assert(self@[i as int] == self.rows@[i as int]@);
            }
            if self.is_ready(i, now) && want.accepts(self.rows[i].topic.as_str()) {
                best = match best {
                    None => Some(i),
                    Some(k) => {
                        assert(self@.take(i as int)[k as int] == self.rows@[k as int]@);
                        if text::less(
                            self.rows[i].created_at.as_str(),
                            self.rows[k].created_at.as_str(),
                        ) {
                            Some(i)
                        } else {
                            Some(k)
                        }
                    },
                };
            }
            i = i + 1;
        }
        proof {
            assert(self@.take(i as int) =~= self@);
        }
        best
    }

    fn count_ahead(&self, now: &str, place: usize) -> (r: usize)
        requires
            place < self@.len(),
        ensures
            r == ahead(self@, now@, place as int, self@.len() as int),
    {
        let mut n: usize = 0;
        let mut i: usize = 0;
        while i < self.rows.len()
            invariant
                i <= self.rows@.len(),
                place < self.rows@.len(),
                self@.len() == self.rows@.len(),
                n <= i,
                n == ahead(self@, now@, place as int, i as int),
            decreases self.rows.len() - i,
        {
            proof {
                assert(self@[i as int] == self.rows@[i as int]@);
                assert(self@[place as int] == self.rows@[place as int]@);
            }
            let earlier: bool = text::less(
                self.rows[i].created_at.as_str(),
                self.rows[place].created_at.as_str(),
            ) || (i < place && text::text_eq(
                self.rows[i].created_at.as_str(),
                self.rows[place].created_at.as_str(),
            ));
            if earlier && self.is_ready(i, now) {
                n = n + 1;
            }
            i = i + 1;
        }
        n
    }

    /// Hands the oldest wanted message that is ready to a worker.
    pub fn claim(&mut self, want: &Want, now: &str, lease: &str, visible_again: &str) -> (r: Option<
        ClaimedMessage,
    >)
        ensures
            match claim_place(old(self)@, want@, now@) {
                Some(i) => {
                    &&& 0 <= i < old(self)@.len()
                    &&& final(self)@ == old(self)@.update(
                        i,
                        as_claimed(old(self)@[i], lease@, visible_again@),
                    )
                    &&& r matches Some(m) && m@ == handed(old(self)@[i], lease@)
                },
                None => r is None && final(self)@ == old(self)@,
            },
    {
        let place: usize = match self.find_oldest(want, now) {
            Some(i) => i,
            None => return None,
        };
        let limited: bool = match want {
            Want::Filter(_) => true,
            _ => false,
        };
        if limited && self.count_ahead(now, place) >= SCAN_LIMIT {
            return None;
        }
        let ghost before = self@;
        let mut rows: Vec<MessageRow> = self.take_rows();
        let payload: Vec<u8> = rows[place].payload.clone();
        proof {
            assert(payload@ =~= rows@[place as int].payload@);
            assert(before[place as int] == rows@[place as int]@);
        }
        let claimed: ClaimedMessage = ClaimedMessage {
            id: rows[place].id.clone(),
            topic: rows[place].topic.clone(),
            payload,
            attributes: rows[place].attributes.clone(),
            created_at: rows[place].created_at.clone(),
            lease: lease.to_string(),
        };
        let mut row: MessageRow = rows[place].clone();
        row.status = MessageStatus::Processing;
        if row.attempts < i64::MAX {
            row.attempts = row.attempts + 1;
        }
        row.lease = Some(lease.to_string());
        row.next_attempt_at = visible_again.to_string();
        rows.set(place, row);
        proof {
            let after = before.update(
                place as int,
                as_claimed(before[place as int], lease@, visible_again@),
            );
            assert(row_views(rows@) =~= after);
            lemma_unique_same_names(before, after);
        }
        *self = MessageTable { rows };
        Some(claimed)
    }

    /// Puts `row`, a new state of the message at place `i`, in its place.
    fn replace(&mut self, i: usize, row: MessageRow)
        requires
            i < old(self)@.len(),
            row@.id == old(self)@[i as int].id,
            row@.idempotency_key == old(self)@[i as int].idempotency_key,
        ensures
            final(self)@ == old(self)@.update(i as int, row@),
    {
        let ghost before = self@;
        let mut rows: Vec<MessageRow> = self.take_rows();
        let ghost state = row@;
        rows.set(i, row);
        proof {
            let after = before.update(i as int, state);
            assert(row_views(rows@) =~= after);
            lemma_unique_same_names(before, after);
        }
        *self = MessageTable { rows };
    }

    /// Gives a held message back; names its topic if it was held.
    pub fn release(&mut self, id: &str, lease: &str) -> (r: Option<String>)
        ensures
            match held_place(old(self)@, id@, lease@) {
                Some(i) => {
                    &&& 0 <= i < old(self)@.len()
                    &&& final(self)@ == old(self)@.update(i, as_pending(old(self)@[i]))
                    &&& text::opt_text(r) == Some(old(self)@[i].topic)
                },
                None => r is None && final(self)@ == old(self)@,
            },
    {
        match self.find_held(id, lease) {
            None => None,
            Some(i) => {
                let mut row: MessageRow = self.rows[i].clone();
                row.status = MessageStatus::Pending;
                row.lease = None;
                let topic: String = row.topic.clone();
                self.replace(i, row);
                Some(topic)
            },
        }
    }

    /// Marks a held message delivered; names its topic if it was held.
    pub fn delivered(&mut self, id: &str, lease: &str, now: &str) -> (r: Option<String>)
        ensures
            match held_place(old(self)@, id@, lease@) {
                Some(i) => {
                    &&& 0 <= i < old(self)@.len()
                    &&& final(self)@ == old(self)@.update(i, as_delivered(old(self)@[i], now@))
                    &&& text::opt_text(r) == Some(old(self)@[i].topic)
                },
                None => r is None && final(self)@ == old(self)@,
            },
    {
        match self.find_held(id, lease) {
            None => None,
            Some(i) => {
                let mut row: MessageRow = self.rows[i].clone();
                row.status = MessageStatus::Delivered;
                row.delivered_at = Some(now.to_string());
                row.last_error = None;
                row.lease = None;
                let topic: String = row.topic.clone();
                self.replace(i, row);
                Some(topic)
            },
        }
    }

    /// Drops a held message; names its topic if it was held.
    pub fn drop_claimed(&mut self, id: &str, lease: &str, error: &str) -> (r: Option<String>)
        ensures
            match held_place(old(self)@, id@, lease@) {
                Some(i) => {
                    &&& 0 <= i < old(self)@.len()
                    &&& final(self)@ == old(self)@.update(i, as_dropped(old(self)@[i], error@))
                    &&& text::opt_text(r) == Some(old(self)@[i].topic)
                },
                None => r is None && final(self)@ == old(self)@,
            },
    {
        match self.find_held(id, lease) {
            None => None,
            Some(i) => {
                let mut row: MessageRow = self.rows[i].clone();
                row.status = MessageStatus::Dropped;
                row.last_error = Some(error.to_string());
                row.lease = None;
                let topic: String = row.topic.clone();
                self.replace(i, row);
                Some(topic)
            },
        }
    }

    /// Topic and number of attempts of a held message.
    pub fn held(&self, id: &str, lease: &str) -> (r: Option<(String, i64)>)
        ensures
            match held_place(self@, id@, lease@) {
                Some(i) => {
                    &&& 0 <= i < self@.len()
                    &&& r matches Some(found) && found.0@ == self@[i].topic && found.1
                        == self@[i].attempts
                },
                None => r is None,
            },
    {
        match self.find_held(id, lease) {
            None => None,
            Some(i) => Some((self.rows[i].topic.clone(), self.rows[i].attempts)),
        }
    }

    /// Ends a failed attempt: the message waits for the next one, or has failed
    /// for good. Names the topic and the new status if the message was held.
    pub fn failed(
        &mut self,
        id: &str,
        lease: &str,
        error: &str,
        max_attempts: i64,
        next_attempt_at: &str,
    ) -> (r: Option<(String, MessageStatus)>)
        ensures
            match held_place(old(self)@, id@, lease@) {
                Some(i) => {
                    &&& 0 <= i < old(self)@.len()
                    &&& final(self)@ == old(self)@.update(
                        i,
                        as_failed(old(self)@[i], error@, max_attempts, next_attempt_at@),
                    )
                    &&& r matches Some(found) && found.0@ == old(self)@[i].topic && found.1
                        == status_after_failure(old(self)@[i].attempts, max_attempts)
                },
                None => r is None && final(self)@ == old(self)@,
            },
    {
        match self.find_held(id, lease) {
            None => None,
            Some(i) => {
                let mut row: MessageRow = self.rows[i].clone();
                let status: MessageStatus = if row.attempts >= max_attempts {
                    MessageStatus::Failed
                } else {
                    MessageStatus::Pending
                };
                row.status = status;
                row.next_attempt_at = next_attempt_at.to_string();
                row.last_error = Some(error.to_string());
                row.lease = None;
                let topic: String = row.topic.clone();
                self.replace(i, row);
                Some((topic, status))
            },
        }
    }

    /// Drops the messages of a topic that wait for a worker; counts them.
    pub fn drop_pending(&mut self, topic: &str, error: &str) -> (r: usize)
        ensures
            final(self)@ == changed(old(self)@, waiting_for(topic@), to_dropped(error@)),
            r == count(old(self)@, waiting_for(topic@)),
    {
        let ghost before = self@;
        let ghost pred = waiting_for(topic@);
        let ghost change = to_dropped(error@);
        let n: usize = self.rows.len();
        let mut dropped: usize = 0;
        let mut i: usize = 0;
        proof {
            assert(before.take(0) =~= Seq::<MessageView>::empty());
        }
        while i < n
            invariant
                i <= n,
                n == before.len(),
                self@.len() == n,
                pred == waiting_for(topic@),
                change == to_dropped(error@),
                dropped <= i,
                dropped == count(before.take(i as int), pred),
                forall|k: int|
                    0 <= k < n ==> #[trigger] self@[k] == (if k < i && pred(before[k]) {
                        change(before[k])
                    } else {
                        before[k]
                    }),
            decreases n - i,
        {
            proof {
                assert(before.take(i + 1).drop_last() =~= before.take(i as int));
                assert(before.take(i + 1).last() == before[i as int]);
                assert(self@[i as int] == self.rows@[i as int]@);
            }
            if self.rows[i].status == MessageStatus::Pending && text::text_eq(
                self.rows[i].topic.as_str(),
                topic,
            ) {
                let mut row: MessageRow = self.rows[i].clone();
                row.status = MessageStatus::Dropped;
                row.last_error = Some(error.to_string());
                row.lease = None;
                self.replace(i, row);
                dropped = dropped + 1;
            }
            i = i + 1;
        }
        proof {
            assert(before.take(n as int) =~= before);
            assert(self@ =~= changed(before, pred, change));
        }
        dropped
    }

    /// Lets every message wait again whose worker has had it for too long;
    /// counts them.
    pub fn reclaim_stale(&mut self, now: &str) -> (r: usize)
        ensures
            final(self)@ == changed(old(self)@, stale(now@), to_pending()),
            r == count(old(self)@, stale(now@)),
    {
        let ghost before = self@;
        let ghost pred = stale(now@);
        let ghost change = to_pending();
        let n: usize = self.rows.len();
        let mut reclaimed: usize = 0;
        let mut i: usize = 0;
        proof {
            assert(before.take(0) =~= Seq::<MessageView>::empty());
        }
        while i < n
            invariant
                i <= n,
                n == before.len(),
                self@.len() == n,
                pred == stale(now@),
                change == to_pending(),
                reclaimed <= i,
                reclaimed == count(before.take(i as int), pred),
                forall|k: int|
                    0 <= k < n ==> #[trigger] self@[k] == (if k < i && pred(before[k]) {
                        change(before[k])
                    } else {
                        before[k]
                    }),
            decreases n - i,
        {
            proof {
                assert(before.take(i + 1).drop_last() =~= before.take(i as int));
                assert(before.take(i + 1).last() == before[i as int]);
                assert(self@[i as int] == self.rows@[i as int]@);
            }
            if self.rows[i].status == MessageStatus::Processing && !text::less(
                now,
                self.rows[i].next_attempt_at.as_str(),
            ) {
                let mut row: MessageRow = self.rows[i].clone();
                row.status = MessageStatus::Pending;
                row.lease = None;
                self.replace(i, row);
                reclaimed = reclaimed + 1;
            }
            i = i + 1;
        }
        proof {
            assert(before.take(n as int) =~= before);
            assert(self@ =~= changed(before, pred, change));
        }
        reclaimed
    }

    /// Lets every held message wait again, as after a restart.
    pub fn recover(&mut self)
        ensures
            final(self)@ == changed(old(self)@, in_hand(), to_pending()),
    {
        let ghost before = self@;
        let ghost pred = in_hand();
        let ghost change = to_pending();
        let n: usize = self.rows.len();
        let mut i: usize = 0;
        while i < n
            invariant
                i <= n,
                n == before.len(),
                self@.len() == n,
                pred == in_hand(),
                change == to_pending(),
                forall|k: int|
                    0 <= k < n ==> #[trigger] self@[k] == (if k < i && pred(before[k]) {
                        change(before[k])
                    } else {
                        before[k]
                    }),
            decreases n - i,
        {
            proof {
                assert(self@[i as int] == self.rows@[i as int]@);
            }
            if self.rows[i].status == MessageStatus::Processing {
                let mut row: MessageRow = self.rows[i].clone();
                row.status = MessageStatus::Pending;
                row.lease = None;
                self.replace(i, row);
            }
            i = i + 1;
        }
        proof {
            assert(self@ =~= changed(before, pred, change));
        }
    }

    /// Deletes what `cut` names; counts it.
    fn cut(&mut self, cut: &Cut) -> (r: usize)
        ensures
            final(self)@ == kept(old(self)@, cut.spares()),
            r == old(self)@.len() - final(self)@.len(),
    {
        let ghost before = self@;
        let ghost pred = cut.spares();
        let rows: Vec<MessageRow> = self.take_rows();
        let n: usize = rows.len();
        let ghost all = rows@;
        let mut out: Vec<MessageRow> = Vec::new();
        proof {
            assert(before.take(0) =~= Seq::<MessageView>::empty());
            assert(row_views(out@) =~= kept(before.take(0), pred));
        }
        for row in it: rows
            invariant
                it.seq() == all,
                row_views(all) == before,
                pred == cut.spares(),
                row_views(out@) == kept(before.take(it.index()), pred),
        {
            let ghost k = it.index();
            proof {
                assert(before.take(k + 1).drop_last() =~= before.take(k));
                assert(before.take(k + 1).last() == row@);
            }
            if !cut.takes(&row) {
                let ghost some = row_views(out@);
                out.push(row);
                proof {
                    assert(row_views(out@) =~= some.push(row@));
                }
            }
        }
        proof {
            assert(before.take(before.len() as int) =~= before);
            lemma_unique_kept(before, pred);
            lemma_kept_from(before, pred);
        }
        let left: usize = out.len();
        *self = MessageTable { rows: out };
        n - left
    }

    /// Deletes the messages of exactly this topic; counts them.
    pub fn delete_topic(&mut self, topic: &str) -> (r: usize)
        ensures
            final(self)@ == kept(old(self)@, not_of_topic(topic@)),
            r == old(self)@.len() - final(self)@.len(),
    {
        self.cut(&Cut::OfTopic(topic.to_string()))
    }

    /// Forgets the messages behind the first `n`.
    pub fn truncate(&mut self, n: usize)
        requires
            n <= old(self)@.len(),
        ensures
            final(self)@ == old(self)@.take(n as int),
    {
        let ghost before = self@;
        let mut rows: Vec<MessageRow> = self.take_rows();
        rows.truncate(n);
        proof {
            assert(row_views(rows@) =~= before.take(n as int));
            assert(before.take(n as int) =~= before.subrange(0, n as int));
            lemma_unique_part(before, 0, n as int);
        }
        *self = MessageTable { rows };
    }

    /// Deletes the messages created before `cutoff`; counts them.
    pub fn purge_older_than(&mut self, cutoff: &str) -> (r: usize)
        ensures
            final(self)@ == kept(old(self)@, not_created_before(cutoff@)),
            r == old(self)@.len() - final(self)@.len(),
    {
        self.cut(&Cut::CreatedBefore(cutoff.to_string()))
    }

    /// Deletes the messages delivered before `cutoff`; counts them.
    pub fn purge_delivered_older_than(&mut self, cutoff: &str) -> (r: usize)
        ensures
            final(self)@ == kept(old(self)@, not_delivered_before(cutoff@)),
            r == old(self)@.len() - final(self)@.len(),
    {
        self.cut(&Cut::DeliveredBefore(cutoff.to_string()))
    }

    /// Deletes the messages whose topic `filter` names; counts them.
    pub fn clear(&mut self, filter: &str) -> (r: usize)
        ensures
            final(self)@ == kept(old(self)@, not_picked(filter@)),
            r == old(self)@.len() - final(self)@.len(),
    {
        self.cut(&Cut::Picked(filter.to_string()))
    }
}

/// Which messages are deleted.
enum Cut {
    OfTopic(String),
    CreatedBefore(String),
    DeliveredBefore(String),
    Picked(String),
}

impl Cut {
    spec fn spares(&self) -> spec_fn(MessageView) -> bool {
        match self {
            Cut::OfTopic(name) => not_of_topic(name@),
            Cut::CreatedBefore(cutoff) => not_created_before(cutoff@),
            Cut::DeliveredBefore(cutoff) => not_delivered_before(cutoff@),
            Cut::Picked(filter) => not_picked(filter@),
        }
    }

    fn takes(&self, row: &MessageRow) -> (r: bool)
        ensures
            r == !(self.spares())(row@),
    {
        match self {
            Cut::OfTopic(name) => text::text_eq(row.topic.as_str(), name.as_str()),
            Cut::CreatedBefore(cutoff) => text::less(row.created_at.as_str(), cutoff.as_str()),
            Cut::DeliveredBefore(cutoff) => match &row.delivered_at {
                Some(at) => row.status == MessageStatus::Delivered && text::less(
                    at.as_str(),
                    cutoff.as_str(),
                ),
                None => false,
            },
            Cut::Picked(filter) => topic_is_picked(filter.as_str(), row.topic.as_str()),
        }
    }
}

/// Whether a filter names a topic: as a pattern if it has a wildcard, else
/// literally.
pub fn topic_is_picked(filter: &str, name: &str) -> (r: bool)
    ensures
        r == picks(filter@, name@),
{
    if topic::is_wildcard_filter(filter) {
        topic::filter_matches(filter, name)
    } else {
        text::text_eq(name, filter)
    }
}

// -------------------------------------------------------------------- laws

/// A message that a worker holds is not handed to another one.
pub proof fn law_a_claimed_message_is_not_claimed_again(
    rows: Seq<MessageView>,
    want: WantView,
    now: Seq<char>,
    lease: Seq<char>,
    visible_again: Seq<char>,
    other: WantView,
    later: Seq<char>,
)
    requires
        claim_place(rows, want, now) is Some,
    ensures
        ({
            let i = claim_place(rows, want, now)->0;
            let after = rows.update(i, as_claimed(rows[i], lease, visible_again));
            claim_place(after, other, later) != Some(i)
        }),
{
    let i = claim_place(rows, want, now)->0;
    let after = rows.update(i, as_claimed(rows[i], lease, visible_again));
    lemma_oldest_place(rows, claimable(want, now));
    lemma_oldest_place(after, claimable(other, later));
}

/// Among messages of one topic, the one that came first is handed out first.
pub proof fn law_claims_are_first_in_first_out(
    rows: Seq<MessageView>,
    want: WantView,
    now: Seq<char>,
    j: int,
)
    requires
        claim_place(rows, want, now) is Some,
        0 <= j < rows.len(),
        claimable(want, now)(rows[j]),
    ensures
        ({
            let i = claim_place(rows, want, now)->0;
            i == j || served_before(rows, i, j)
        }),
{
    lemma_oldest_place(rows, claimable(want, now));
}

/// Of two messages that a worker could get, the one that was created at an
/// earlier time is served before the other.
pub proof fn law_older_messages_are_served_first(
    rows: Seq<MessageView>,
    i: int,
    j: int,
    a: UtcTime,
    b: UtcTime,
)
    requires
        rows[i].created_at == clock::time_text(a),
        rows[j].created_at == clock::time_text(b),
        clock::faithful(a),
        a.writable(),
        b.writable(),
    ensures
        served_before(rows, i, j) == (a.is_before(b) || (a == b && i < j)),
{
    clock::law_texts_sort_as_times(a, b);
}

/// A row served before another one has no more ready rows ahead of it.
proof fn lemma_ahead(rows: Seq<MessageView>, now: Seq<char>, i: int, j: int, n: int)
    requires
        0 <= n <= rows.len(),
        i == j || served_before(rows, i, j),
    ensures
        ahead(rows, now, i, n) <= ahead(rows, now, j, n),
    decreases n,
{
    if n > 0 {
        lemma_ahead(rows, now, i, j, n - 1);
        text::lemma_text_less_order(
            rows[n - 1].created_at,
            rows[i].created_at,
            rows[j].created_at,
        );
        assert(served_before(rows, n - 1, i) ==> served_before(rows, n - 1, j));
    }
}

/// A worker gets something whenever a message that it wants is ready; one that
/// asks with a filter, if fewer than [`SCAN_LIMIT`] ready messages are served
/// before that one.
pub proof fn law_a_ready_message_is_claimed(rows: Seq<MessageView>, want: WantView, now: Seq<char>, j: int)
    requires
        0 <= j < rows.len(),
        claimable(want, now)(rows[j]),
        want is Filter ==> ahead(rows, now, j, rows.len() as int) < SCAN_LIMIT,
    ensures
        claim_place(rows, want, now) is Some,
{
    lemma_oldest_place(rows, claimable(want, now));
    assert(claimable(want, now)(rows[j]));
    let i = oldest_place(rows, claimable(want, now))->0;
    lemma_ahead(rows, now, i, j, rows.len() as int);
}

/// Only the lease under which a message is held ends its processing.
pub proof fn law_only_the_lease_holder_settles(
    rows: Seq<MessageView>,
    i: int,
    lease: Seq<char>,
    other: Seq<char>,
)
    requires
        unique(rows),
        0 <= i < rows.len(),
        rows[i].status == MessageStatus::Processing,
        rows[i].lease == Some(lease),
    ensures
        held_place(rows, rows[i].id, lease) == Some(i),
        other != lease ==> held_place(rows, rows[i].id, other) is None,
{
    lemma_first_place(rows, held_under(rows[i].id, lease));
    lemma_first_place(rows, held_under(rows[i].id, other));
    assert(held_under(rows[i].id, lease)(rows[i]));
    if let Some(k) = held_place(rows, rows[i].id, lease) {
        if k != i {
            assert(rows[if k < i { k } else { i }].id != rows[if k < i { i } else { k }].id);
        }
    }
    if let Some(k) = held_place(rows, rows[i].id, other) {
        if k != i {
            assert(rows[if k < i { k } else { i }].id != rows[if k < i { i } else { k }].id);
        }
    }
}

/// A settled message cannot be settled again under the same lease.
pub proof fn law_a_message_is_settled_once(
    rows: Seq<MessageView>,
    id: Seq<char>,
    lease: Seq<char>,
    settled: MessageView,
)
    requires
        unique(rows),
        held_place(rows, id, lease) is Some,
        settled.id == id,
        settled.lease is None,
    ensures
        held_place(rows.update(held_place(rows, id, lease)->0, settled), id, lease) is None,
{
    let i = held_place(rows, id, lease)->0;
    let after = rows.update(i, settled);
    lemma_first_place(rows, held_under(id, lease));
    lemma_first_place(after, held_under(id, lease));
    if let Some(k) = held_place(after, id, lease) {
        if k != i {
            assert(after[k] == rows[k]);
            assert(rows[if k < i { k } else { i }].id != rows[if k < i { i } else { k }].id);
        }
    }
}

/// A claimed message that nobody settles is ready again once its visibility has
/// ended and stale messages are reclaimed.
pub proof fn law_an_unsettled_message_comes_back(
    rows: Seq<MessageView>,
    i: int,
    lease: Seq<char>,
    visible_again: Seq<char>,
    now: Seq<char>,
)
    requires
        0 <= i < rows.len(),
        !text::text_less(now, visible_again),
    ensures
        ({
            let claimed = rows.update(i, as_claimed(rows[i], lease, visible_again));
            let after = changed(claimed, stale(now), to_pending());
            ready(after[i], now) && after[i].payload == rows[i].payload && after[i].id == rows[i].id
                && after[i].lease is None
        }),
{
}

/// A message that was stored in a shard under an idempotency key is found when it
/// is stored there again: the second time changes nothing and names the first message.
pub proof fn law_storing_twice_is_storing_once(
    rows: Seq<MessageView>,
    first: InputView,
    now: Seq<char>,
    second: InputView,
    later: Seq<char>,
)
    requires
        unique(rows),
        first.idempotency_key is Some,
        second.idempotency_key == first.idempotency_key,
        stored(rows, first, now).0 is Ok,
    ensures
        ({
            let (outcome, after) = stored(rows, first, now);
            stored(after, second, later) == (
                Ok::<(Seq<char>, bool), StoreFault>((outcome->Ok_0.0, true)),
                after,
            )
        }),
{
    reveal(stored);
    let key = first.idempotency_key->0;
    let m = fresh_row(first, now);
    let (outcome, after) = stored(rows, first, now);
    lemma_first_place(rows, has_key(key));
    lemma_first_place(after, has_key(key));
    let i = if clashes(rows, m) {
        first_place(rows, has_key(key))->0
    } else {
        rows.len() as int
    };
    assert(has_key(key)(after[i]));
    assert(clash(after[i], fresh_row(second, later)));
    if !clashes(rows, m) {
        assert forall|k: int| 0 <= k < rows.len() implies !has_key(key)(#[trigger] rows[k]) by {
            assert(!clash(rows[k], m));
        }
        let found = first_place(after, has_key(key))->0;
        if found < rows.len() {
            assert(after[found] == rows[found]);
        }
    }
}

/// Recovery leaves no message in the hands of a worker and loses none.
pub proof fn law_recovery_keeps_every_message(rows: Seq<MessageView>)
    ensures
        ({
            let after = changed(rows, in_hand(), to_pending());
            after.len() == rows.len() && forall|i: int|
                0 <= i < rows.len() ==> (#[trigger] after[i]).status != MessageStatus::Processing
                    && after[i].id == rows[i].id && after[i].payload == rows[i].payload
        }),
{
}

} // verus!