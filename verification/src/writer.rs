//! Writing to the queue in batches.
//!
//! Writes are collected for a short time and carried out together: the messages
//! to be stored first, then the deliveries. A writer of a message is answered
//! only when its message is stored. Waiting for writes is up to the caller.
use vstd::prelude::*;
use vstd::string::*;

use crate::clock;
use crate::clock::UtcTime;
use crate::db;
use crate::db::Database;
use crate::intake;
use crate::intake::EnqueueInput;
use crate::json::Attributes;
use crate::messages::{InputView, StoreFault};
use crate::shard;
use crate::table::TextMap;
use crate::text;
use crate::topic;

verus! {

// ------------------------------------------------------------------- routing

/// How many writes may wait for each shard: a sixteenth of all, at least one.
pub fn shard_queue_size(queue_size: usize) -> (r: usize)
    ensures
        r == (if queue_size == 0 {
            1int
        } else {
            (queue_size + 15) / 16
        }),
        r >= 1,
        queue_size > 0 ==> 16 * (r - 1) < queue_size <= 16 * r,
{
    if queue_size == 0 {
        1
    } else if queue_size % 16 == 0 {
        queue_size / 16
    } else {
        queue_size / 16 + 1
    }
}

/// The shard whose writer marks a message delivered: the one that its
/// identifier names, else the first.
pub fn delivery_shard(id: &str) -> (r: usize)
    ensures
        r == (match shard::shard_of_id(id@) {
            Some(s) => s,
            None => 0,
        }),
        r < shard::MESSAGE_SHARDS,
{
    match shard::message_id_shard(id) {
        Some(s) => s,
        None => 0,
    }
}

/// A message to be stored, under a fresh identifier of its topic's shard.
pub fn enqueue_input(
    idempotency_key: Option<&str>,
    topic: &str,
    payload: Vec<u8>,
    attributes: Attributes,
) -> (r: EnqueueInput)
    ensures
        shard::is_fresh_id(r@.id, topic@),
        shard::shard_of_id(r@.id) == Some(shard::shard_of(topic@)),
        r@.idempotency_key == intake::usable_key(text::opt_str(idempotency_key)),
        r@.topic == topic@,
        r@.payload == payload@,
        r.attributes == attributes,
{
    let key: Option<String> = match idempotency_key {
        Some(k) => if k.is_empty() {
            None
        } else {
            Some(k.to_string())
        },
        None => None,
    };
    EnqueueInput {
        id: shard::new_message_id(topic),
        idempotency_key: key,
        topic: topic.to_string(),
        payload,
        attributes,
    }
}

// ------------------------------------------------------------------ batching

/// A write.
pub enum WriteCommand {
    Enqueue(EnqueueInput),
    Delivered { id: String, lease: String },
}

pub enum CommandView {
    Enqueue(InputView),
    Delivered { id: Seq<char>, lease: Seq<char> },
}

impl View for WriteCommand {
    type V = CommandView;

    open spec fn view(&self) -> CommandView {
        match self {
            WriteCommand::Enqueue(input) => CommandView::Enqueue(input@),
            WriteCommand::Delivered { id, lease } => CommandView::Delivered {
                id: id@,
                lease: lease@,
            },
        }
    }
}

pub open spec fn command_views(list: Seq<WriteCommand>) -> Seq<CommandView> {
    list.map_values(|c: WriteCommand| c@)
}

/// What came while a batch was collected.
pub enum Inbox {
    Command(WriteCommand),
    /// The writer is to stop.
    Shutdown,
    /// The time to collect is over.
    Deadline,
    /// No more writes will come.
    Closed,
}

/// Writes that are carried out together.
pub struct Batch {
    pub commands: Vec<WriteCommand>,
    pub limit: usize,
    /// Whether the writer stops after this batch.
    pub stop: bool,
}

impl Batch {
    /// A batch that starts with a write, of at most `batch_size` writes, at least
    /// one.
    pub fn begin(first: WriteCommand, batch_size: usize) -> (r: Batch)
        ensures
            command_views(r.commands@) == seq![first@],
            r.limit == (if batch_size == 0 {
                1
            } else {
                batch_size
            }),
            !r.stop,
    {
        let mut commands: Vec<WriteCommand> = Vec::new();
        commands.push(first);
        proof {
            assert(command_views(commands@) =~= seq![first@]);
        }
        Batch {
            commands,
            limit: if batch_size == 0 {
                1
            } else {
                batch_size
            },
            stop: false,
        }
    }

    /// Whether nothing more fits.
    pub fn is_full(&self) -> (r: bool)
        ensures
            r == (self.commands@.len() >= self.limit),
    {
        self.commands.len() >= self.limit
    }

    /// Takes what came; says whether the batch is to be carried out now.
    pub fn accept(&mut self, came: Inbox) -> (r: bool)
        ensures
            final(self).limit == old(self).limit,
            match came {
                Inbox::Command(command) => {
                    &&& command_views(final(self).commands@) == command_views(
                        old(self).commands@,
                    ).push(command@)
                    &&& final(self).stop == old(self).stop
                    &&& r == (final(self).commands@.len() >= final(self).limit)
                },
                Inbox::Shutdown => {
                    &&& final(self).commands == old(self).commands
                    &&& final(self).stop
                    &&& r
                },
                _ => {
                    &&& *final(self) == *old(self)
                    &&& r
                },
            },
    {
        match came {
            Inbox::Command(command) => {
                let ghost before = command_views(self.commands@);
                self.commands.push(command);
                proof {
                    assert(command_views(self.commands@) =~= before.push(command@));
                }
                self.is_full()
            },
            Inbox::Shutdown => {
                self.stop = true;
                true
            },
            _ => true,
        }
    }
}

/// The messages to be stored, in the order of the writes.
pub open spec fn enqueues(list: Seq<CommandView>) -> Seq<InputView>
    decreases list.len(),
{
    if list.len() == 0 {
        Seq::empty()
    } else {
        match list.last() {
            CommandView::Enqueue(input) => enqueues(list.drop_last()).push(input),
            _ => enqueues(list.drop_last()),
        }
    }
}

/// The deliveries, in the order of the writes.
pub open spec fn deliveries(list: Seq<CommandView>) -> Seq<(Seq<char>, Seq<char>)>
    decreases list.len(),
{
    if list.len() == 0 {
        Seq::empty()
    } else {
        match list.last() {
            CommandView::Delivered { id, lease } => deliveries(list.drop_last()).push((id, lease)),
            _ => deliveries(list.drop_last()),
        }
    }
}

/// The answer to a write.
pub enum WriteResult {
    Enqueued(Result<(String, bool), StoreFault>),
    Delivered(bool),
}

pub enum ResultView {
    Enqueued(Result<(Seq<char>, bool), StoreFault>),
    Delivered(bool),
}

impl View for WriteResult {
    type V = ResultView;

    open spec fn view(&self) -> ResultView {
        match self {
            WriteResult::Enqueued(Ok((id, duplicate))) => ResultView::Enqueued(
                Ok((id@, *duplicate)),
            ),
            WriteResult::Enqueued(Err(fault)) => ResultView::Enqueued(Err(*fault)),
            WriteResult::Delivered(held) => ResultView::Delivered(*held),
        }
    }
}

pub open spec fn answer_views(list: Seq<WriteResult>) -> Seq<ResultView> {
    list.map_values(|r: WriteResult| r@)
}

/// The answers to some writes. Where the messages could not be stored, all of
/// their writers are told why.
pub open spec fn answers(
    list: Seq<CommandView>,
    stored: Result<Seq<(Seq<char>, bool)>, StoreFault>,
    held: Seq<bool>,
) -> Seq<ResultView>
    decreases list.len(),
{
    if list.len() == 0 {
        Seq::empty()
    } else {
        let init = list.drop_last();
        answers(init, stored, held).push(
            match list.last() {
                CommandView::Enqueue(_) => ResultView::Enqueued(
                    match stored {
                        Ok(results) => Ok(results[enqueues(init).len() as int]),
                        Err(fault) => Err(fault),
                    },
                ),
                CommandView::Delivered { .. } => ResultView::Delivered(
                    held[deliveries(init).len() as int],
                ),
            },
        )
    }
}

pub open spec fn stored_views(r: Result<Vec<(String, bool)>, StoreFault>) -> Result<
    Seq<(Seq<char>, bool)>,
    StoreFault,
> {
    match r {
        Ok(list) => Ok(intake::result_views(list@)),
        Err(fault) => Err(fault),
    }
}

/// The same time for each of `n` messages.
pub open spec fn at_once(n: nat, now: UtcTime) -> Seq<Seq<char>> {
    Seq::new(n, |i: int| clock::time_text(now))
}

/// The messages of a batch were stored, or none was there.
pub open spec fn messages_written(
    before: Database,
    after: Database,
    items: Seq<InputView>,
    now: UtcTime,
    r: Result<Vec<(String, bool)>, StoreFault>,
) -> bool {
    if items.len() == 0 {
        after == before && (r matches Ok(list) && list@.len() == 0)
    } else {
        intake::batch_stored(
            before,
            after,
            items,
            at_once(items.len(), now),
            clock::minute_text(now),
            r,
        )
    }
}

/// A batch was carried out.
pub open spec fn batch_written(
    before: Database,
    after: Database,
    list: Seq<CommandView>,
    now: UtcTime,
    results: Seq<ResultView>,
) -> bool {
    exists|mid: Database, stored: Result<Vec<(String, bool)>, StoreFault>, held: Seq<bool>|
        #![trigger messages_written(before, mid, enqueues(list), now, stored), db::batch_delivered(
            mid,
            after,
            deliveries(list),
            held,
            now,
        )]
        {
            &&& messages_written(before, mid, enqueues(list), now, stored)
            &&& db::batch_delivered(mid, after, deliveries(list), held, now)
            &&& results == answers(list, stored_views(stored), held)
        }
}

fn split(batch: Vec<WriteCommand>) -> (r: (Vec<EnqueueInput>, Vec<(String, String)>, Vec<bool>))
    ensures
        intake::input_views(r.0@) == enqueues(command_views(batch@)),
        db::pair_views(r.1@) == deliveries(command_views(batch@)),
        r.2@.len() == batch@.len(),
        forall|i: int| 0 <= i < batch@.len() ==> #[trigger] r.2@[i] == (batch@[i] is Enqueue),
{
    let ghost source = batch@;
    let ghost all = command_views(source);
    let mut items: Vec<EnqueueInput> = Vec::new();
    let mut updates: Vec<(String, String)> = Vec::new();
    let mut kinds: Vec<bool> = Vec::new();
    proof {
        assert(all.take(0) =~= Seq::<CommandView>::empty());
        assert(intake::input_views(items@) =~= Seq::<InputView>::empty());
        assert(db::pair_views(updates@) =~= Seq::<(Seq<char>, Seq<char>)>::empty());
    }
    for command in it: batch
        invariant
            it.seq() == source,
            all == command_views(source),
            intake::input_views(items@) == enqueues(all.take(it.index())),
            db::pair_views(updates@) == deliveries(all.take(it.index())),
            kinds@.len() == it.index(),
            forall|i: int|
                0 <= i < it.index() ==> #[trigger] kinds@[i] == (source[i] is Enqueue),
    {
        let ghost k = it.index();
        let ghost inputs = intake::input_views(items@);
        let ghost pairs = db::pair_views(updates@);
        proof {
            assert(all.take(k + 1).drop_last() =~= all.take(k));
            assert(all.take(k + 1).last() == command@);
        }
        match command {
            WriteCommand::Enqueue(input) => {
                items.push(input);
                kinds.push(true);
                proof {
                    assert(intake::input_views(items@) =~= inputs.push(input@));
                }
            },
            WriteCommand::Delivered { id, lease } => {
                updates.push((id, lease));
                kinds.push(false);
                proof {
                    assert(db::pair_views(updates@) =~= pairs.push((id@, lease@)));
                }
            },
        }
    }
    proof {
        assert(all.take(all.len() as int) =~= all);
    }
    (items, updates, kinds)
}

proof fn lemma_counts(list: Seq<CommandView>, i: int)
    requires
        0 <= i < list.len(),
    ensures
        enqueues(list.take(i + 1)).len() == enqueues(list.take(i)).len() + (if list[i] is Enqueue {
            1int
        } else {
            0
        }),
        deliveries(list.take(i + 1)).len() == deliveries(list.take(i)).len() + (if list[i] is Enqueue {
            0int
        } else {
            1
        }),
{
    assert(list.take(i + 1).drop_last() =~= list.take(i));
    assert(list.take(i + 1).last() == list[i]);
}

proof fn lemma_counts_grow(list: Seq<CommandView>, i: int)
    requires
        0 <= i <= list.len(),
    ensures
        enqueues(list.take(i)).len() <= enqueues(list).len(),
        deliveries(list.take(i)).len() <= deliveries(list).len(),
    decreases list.len() - i,
{
    if i < list.len() {
        lemma_counts(list, i);
        lemma_counts_grow(list, i + 1);
    } else {
        assert(list.take(i) =~= list);
    }
}

proof fn lemma_delivered_len(
    t: db::Tally,
    list: Seq<(Seq<char>, Seq<char>)>,
    now: Seq<char>,
    minute: Seq<char>,
)
    ensures
        db::delivered_steps(t, list, now, minute).0.len() == list.len(),
    decreases list.len(),
{
    if list.len() > 0 {
        lemma_delivered_len(t, list.drop_last(), now, minute);
    }
}

fn same_times(n: usize, now: &String) -> (r: Vec<String>)
    ensures
        r@.len() == n,
        forall|i: int| 0 <= i < n ==> (#[trigger] r@[i])@ == now@,
{
    let mut out: Vec<String> = Vec::new();
    let mut i: usize = 0;
    while i < n
        invariant
            i <= n,
            out@.len() == i,
            forall|k: int| 0 <= k < i ==> (#[trigger] out@[k])@ == now@,
        decreases n - i,
    {
        out.push(now.clone());
        i = i + 1;
    }
    out
}

fn store_all(database: &mut Database, items: &Vec<EnqueueInput>, now: UtcTime) -> (r: Result<
    Vec<(String, bool)>,
    StoreFault,
>)
    requires
        old(database).wf(),
        now.valid(),
    ensures
        final(database).wf(),
        messages_written(*old(database), *final(database), intake::input_views(items@), now, r),
{
    if items.len() == 0 {
        return Ok(Vec::new());
    }
    let at: String = clock::text_of(now);
    let minute: String = clock::minute(now);
    let times: Vec<String> = same_times(items.len(), &at);
    proof {
        assert(text::texts(times@) =~= at_once(items@.len(), now));
    }
    database.enqueue_batch_at(items, &times, minute.as_str())
}

fn pair_up(
    kinds: &Vec<bool>,
    stored: Result<Vec<(String, bool)>, StoreFault>,
    held: &Vec<bool>,
    Ghost(list): Ghost<Seq<CommandView>>,
) -> (r: Vec<WriteResult>)
    requires
        kinds@.len() == list.len(),
        forall|i: int| 0 <= i < list.len() ==> #[trigger] kinds@[i] == (list[i] is Enqueue),
        stored matches Ok(results) ==> results@.len() == enqueues(list).len(),
        held@.len() == deliveries(list).len(),
    ensures
        answer_views(r@) == answers(list, stored_views(stored), held@),
{
    let mut out: Vec<WriteResult> = Vec::new();
    let ghost shown = stored_views(stored);
    let mut e: usize = 0;
    let mut d: usize = 0;
    let mut i: usize = 0;
    proof {
        assert(list.take(0) =~= Seq::<CommandView>::empty());
        assert(answer_views(out@) =~= Seq::<ResultView>::empty());
    }
    while i < kinds.len()
        invariant
            i <= kinds@.len(),
            kinds@.len() == list.len(),
            forall|k: int| 0 <= k < list.len() ==> #[trigger] kinds@[k] == (list[k] is Enqueue),
            stored matches Ok(results) ==> results@.len() == enqueues(list).len(),
            held@.len() == deliveries(list).len(),
            shown == stored_views(stored),
            e <= i,
            d <= i,
            e == enqueues(list.take(i as int)).len(),
            d == deliveries(list.take(i as int)).len(),
            answer_views(out@) == answers(list.take(i as int), shown, held@),
        decreases kinds.len() - i,
    {
        let ghost so_far = answer_views(out@);
        proof {
            lemma_counts(list, i as int);
            lemma_counts_grow(list, i + 1);
            assert(list.take(i + 1).drop_last() =~= list.take(i as int));
            assert(list.take(i + 1).last() == list[i as int]);
        }
        let result: WriteResult = if kinds[i] {
            let r: Result<(String, bool), StoreFault> = match &stored {
                Ok(results) => {
                    proof {
                        assert(intake::result_views(results@)[e as int] == (
                            results@[e as int].0@,
                            results@[e as int].1,
                        ));
                    }
                    Ok((results[e].0.clone(), results[e].1))
                },
                Err(fault) => Err(*fault),
            };
            e = e + 1;
            WriteResult::Enqueued(r)
        } else {
            let ok: bool = held[d];
            d = d + 1;
            WriteResult::Delivered(ok)
        };
        out.push(result);
        proof {
            assert(answer_views(out@) =~= so_far.push(result@));
        }
        i = i + 1;
    }
    proof {
        assert(list.take(list.len() as int) =~= list);
    }
    out
}

/// Carries out a batch at the time `now`, and answers each write.
pub fn run_batch_at(database: &mut Database, batch: Vec<WriteCommand>, now: UtcTime) -> (r: Vec<
    WriteResult,
>)
    requires
        old(database).wf(),
        now.valid(),
    ensures
        final(database).wf(),
        batch_written(
            *old(database),
            *final(database),
            command_views(batch@),
            now,
            answer_views(r@),
        ),
{
    let ghost list = command_views(batch@);
    let (items, updates, kinds): (Vec<EnqueueInput>, Vec<(String, String)>, Vec<bool>) = split(
        batch,
    );
    let stored: Result<Vec<(String, bool)>, StoreFault> = store_all(database, &items, now);
    let ghost mid = *database;
    let held: Vec<bool> = database.delivered_batch_at(&updates, now);
    proof {
        lemma_delivered_len(
            db::tally(mid),
            deliveries(list),
            clock::time_text(now),
            clock::minute_text(now),
        );
        assert(messages_written(*old(database), mid, enqueues(list), now, stored));
        assert(db::batch_delivered(mid, *database, deliveries(list), held@, now));
    }
    let r: Vec<WriteResult> = pair_up(&kinds, stored, &held, Ghost(list));
    r
}

/// Carries out a batch now, and answers each write.
pub fn run_batch(database: &mut Database, batch: Vec<WriteCommand>) -> (r: Vec<WriteResult>)
    requires
        old(database).wf(),
    ensures
        final(database).wf(),
        exists|now: UtcTime|
            now.valid() && #[trigger] batch_written(
                *old(database),
                *final(database),
                command_views(batch@),
                now,
                answer_views(r@),
            ),
{
    run_batch_at(database, batch, clock::now())
}

// ------------------------------------------------------------- notifications

/// How often something was stored for each topic that is watched, and at all.
pub struct QueueNotifications {
    topics: TextMap<u64>,
    global: Option<u64>,
}

#[verifier::ext_equal]
pub struct NotificationsView {
    pub topics: Map<Seq<char>, u64>,
    pub global: Option<u64>,
}

impl View for QueueNotifications {
    type V = NotificationsView;

    closed spec fn view(&self) -> NotificationsView {
        NotificationsView { topics: self.topics@, global: self.global }
    }
}

/// The generation after another; after the largest comes zero.
pub open spec fn next_generation(n: u64) -> u64 {
    if n == u64::MAX {
        0
    } else {
        (n + 1) as u64
    }
}

/// Watching a topic, or everything where the filter has a wildcard.
pub open spec fn watched(n: NotificationsView, filter: Seq<char>) -> NotificationsView {
    if topic::wild(filter) {
        NotificationsView {
            global: Some(generation(n, filter)),
            ..n
        }
    } else {
        NotificationsView { topics: n.topics.insert(filter, generation(n, filter)), ..n }
    }
}

/// The generation that a watcher of a filter sees.
pub open spec fn generation(n: NotificationsView, filter: Seq<char>) -> u64 {
    if topic::wild(filter) {
        match n.global {
            Some(g) => g,
            None => 0,
        }
    } else if n.topics.contains_key(filter) {
        n.topics[filter]
    } else {
        0
    }
}

/// A message was stored for a topic.
pub open spec fn notified(n: NotificationsView, topic: Seq<char>) -> NotificationsView {
    NotificationsView {
        topics: if n.topics.contains_key(topic) {
            n.topics.insert(topic, next_generation(n.topics[topic]))
        } else {
            n.topics
        },
        global: match n.global {
            Some(g) => Some(next_generation(g)),
            None => None,
        },
    }
}

fn bump(n: u64) -> (r: u64)
    ensures
        r == next_generation(n),
{
    if n == u64::MAX {
        0
    } else {
        n + 1
    }
}

impl Default for QueueNotifications {
    fn default() -> (r: Self)
        ensures
            r@ == (NotificationsView { topics: Map::empty(), global: None }),
    {
        QueueNotifications { topics: TextMap::new(), global: None }
    }
}

impl QueueNotifications {
    /// Watches a topic, or everything where the filter has a wildcard. Gives the
    /// generation from which changes count.
    pub fn subscribe(&mut self, filter: &str) -> (r: u64)
        ensures
            r == generation(old(self)@, filter@),
            final(self)@ == watched(old(self)@, filter@),
    {
        if topic::is_wildcard_filter(filter) {
            let g: u64 = match self.global {
                Some(g) => g,
                None => 0,
            };
            self.global = Some(g);
            g
        } else {
            let g: u64 = match self.topics.get(filter) {
                Some(g) => *g,
                None => 0,
            };
            self.topics.set(filter.to_string(), g);
            g
        }
    }

    /// Tells the watchers that a message was stored for a topic.
    pub fn notify(&mut self, topic: &str)
        ensures
            final(self)@ == notified(old(self)@, topic@),
    {
        let known: Option<u64> = match self.topics.get(topic) {
            Some(g) => Some(*g),
            None => None,
        };
        match known {
            Some(g) => self.topics.set(topic.to_string(), bump(g)),
            None => {},
        }
        match self.global {
            Some(g) => {
                self.global = Some(bump(g));
            },
            None => {},
        }
    }

    /// Tells the watchers of a topic, where a message was stored that was not
    /// there before.
    pub fn notify_result(&mut self, topic: &str, result: &WriteResult)
        ensures
            final(self)@ == (if result@ matches ResultView::Enqueued(Ok(r)) && !r.1 {
                notified(old(self)@, topic@)
            } else {
                old(self)@
            }),
    {
        match result {
            WriteResult::Enqueued(Ok((_, duplicate))) => {
                if !*duplicate {
                    self.notify(topic);
                }
            },
            _ => {},
        }
    }
}

// -------------------------------------------------------------------- laws

/// Each write is answered, and as what it is.
pub proof fn law_every_write_is_answered(
    list: Seq<CommandView>,
    stored: Result<Seq<(Seq<char>, bool)>, StoreFault>,
    held: Seq<bool>,
)
    ensures
        answers(list, stored, held).len() == list.len(),
        forall|i: int|
            0 <= i < list.len() ==> (#[trigger] list[i] is Enqueue <==> answers(list, stored, held)[i]
                is Enqueued),
    decreases list.len(),
{
    if list.len() > 0 {
        let init = list.drop_last();
        law_every_write_is_answered(init, stored, held);
        assert forall|i: int| 0 <= i < list.len() implies (#[trigger] list[i] is Enqueue <==> answers(
            list,
            stored,
            held,
        )[i] is Enqueued) by {
            if i < init.len() {
                assert(init[i] == list[i]);
            }
        }
    }
}

/// Whoever watches a topic sees a new generation when a message is stored for it.
pub proof fn law_watchers_are_woken(n: NotificationsView, filter: Seq<char>, topic: Seq<char>)
    requires
        filter == topic || topic::wild(filter),
    ensures
        generation(notified(watched(n, filter), topic), filter) != generation(n, filter),
{
}

/// The messages and the deliveries of a batch are taken out in the order in
/// which they came, each as it was written.
pub proof fn law_writes_keep_their_order(a: Seq<CommandView>, b: Seq<CommandView>)
    ensures
        enqueues(a + b) == enqueues(a) + enqueues(b),
        deliveries(a + b) == deliveries(a) + deliveries(b),
        a.len() == 1 ==> match a[0] {
            CommandView::Enqueue(input) => enqueues(a) == seq![input] && deliveries(a).len() == 0,
            CommandView::Delivered { id, lease } => enqueues(a).len() == 0 && deliveries(a) == seq![
                (id, lease),
            ],
        },
        enqueues(a).len() + deliveries(a).len() == a.len(),
    decreases b.len(), a.len(),
{
    if b.len() > 0 {
        law_writes_keep_their_order(a, b.drop_last());
        assert((a + b).drop_last() =~= a + b.drop_last());
        assert((a + b).last() == b.last());
    } else {
        assert(a + b =~= a);
        if a.len() > 0 {
            law_writes_keep_their_order(a.drop_last(), b);
        }
    }
    if a.len() == 1 {
        assert(a.drop_last().len() == 0);
        reveal_with_fuel(enqueues, 2);
        reveal_with_fuel(deliveries, 2);
    }
}

/// Each writer gets the answer to its own write: the n-th message that was
/// written the n-th result of storing, the n-th delivery the n-th result of
/// delivering. Where storing failed, every writer of a message is told why.
pub proof fn law_every_writer_gets_its_own_answer(
    list: Seq<CommandView>,
    stored: Result<Seq<(Seq<char>, bool)>, StoreFault>,
    held: Seq<bool>,
    i: int,
)
    requires
        0 <= i < list.len(),
    ensures
        answers(list, stored, held).len() == list.len(),
        ({
            let earlier = list.subrange(0, i);
            match (list[i], stored) {
                (CommandView::Enqueue(_), Ok(results)) => answers(list, stored, held)[i]
                    == ResultView::Enqueued(Ok(results[enqueues(earlier).len() as int])),
                (CommandView::Enqueue(_), Err(fault)) => answers(list, stored, held)[i]
                    == ResultView::Enqueued(Err(fault)),
                (CommandView::Delivered { .. }, _) => answers(list, stored, held)[i]
                    == ResultView::Delivered(held[deliveries(earlier).len() as int]),
            }
        }),
    decreases list.len(),
{
    law_every_write_is_answered(list, stored, held);
    let init = list.drop_last();
    if i < init.len() {
        law_every_writer_gets_its_own_answer(init, stored, held, i);
        assert(init.subrange(0, i) =~= list.subrange(0, i));
        assert(init[i] == list[i]);
    } else {
        assert(init =~= list.subrange(0, i));
    }
}

/// A batch stores its messages together, all at the same time, and then marks
/// what was delivered. Where it holds no message, nothing is stored.
pub proof fn law_a_batch_stores_and_then_delivers(
    before: Database,
    after: Database,
    list: Seq<CommandView>,
    now: UtcTime,
    results: Seq<ResultView>,
)
    requires
        batch_written(before, after, list, now, results),
    ensures
        results.len() == list.len(),
        exists|mid: Database, held: Seq<bool>| #[trigger]
            db::batch_delivered(mid, after, deliveries(list), held, now) && {
                ||| enqueues(list).len() == 0 && mid == before
                ||| enqueues(list).len() > 0 && exists|
                    times: Seq<Seq<char>>,
                    stored: Result<Vec<(String, bool)>, StoreFault>,
                |
                    times.len() == enqueues(list).len() && (forall|i: int|
                        0 <= i < times.len() ==> #[trigger] times[i] == clock::time_text(now))
                        && #[trigger] intake::batch_stored(
                        before,
                        mid,
                        enqueues(list),
                        times,
                        clock::minute_text(now),
                        stored,
                    )
            },
{
    let (mid, stored, held) = choose|
        mid: Database,
        stored: Result<Vec<(String, bool)>, StoreFault>,
        held: Seq<bool>,
    |
        #![trigger messages_written(before, mid, enqueues(list), now, stored), db::batch_delivered(
            mid,
            after,
            deliveries(list),
            held,
            now,
        )]
        {
            &&& messages_written(before, mid, enqueues(list), now, stored)
            &&& db::batch_delivered(mid, after, deliveries(list), held, now)
            &&& results == answers(list, stored_views(stored), held)
        };
    law_every_write_is_answered(list, stored_views(stored), held);
    if enqueues(list).len() > 0 {
        let times = at_once(enqueues(list).len(), now);
        assert(intake::batch_stored(
            before,
            mid,
            enqueues(list),
            times,
            clock::minute_text(now),
            stored,
        ));
    }
    assert(db::batch_delivered(mid, after, deliveries(list), held, now));
}

/// Watching changes no generation, and a stored message changes the generation
/// of its own topic and of the wildcards alone, where they are watched: by one,
/// and from the greatest back to zero.
pub proof fn law_only_watchers_of_the_topic_are_woken(
    n: NotificationsView,
    topic: Seq<char>,
    filter: Seq<char>,
)
    ensures
        generation(watched(n, filter), filter) == generation(n, filter),
        generation(watched(n, topic), filter) == generation(n, filter),
        !topic::wild(filter) && filter != topic ==> generation(notified(n, topic), filter)
            == generation(n, filter),
        !topic::wild(topic) ==> {
            let old = generation(watched(n, topic), topic) as int;
            let new = generation(notified(watched(n, topic), topic), topic) as int;
            new == (old + 1) % 0x1_0000_0000_0000_0000
        },
        topic::wild(filter) ==> {
            let old = generation(watched(n, filter), filter) as int;
            let new = generation(notified(watched(n, filter), topic), filter) as int;
            new == (old + 1) % 0x1_0000_0000_0000_0000
        },
        !n.topics.contains_key(topic) ==> !notified(n, topic).topics.contains_key(topic),
        !topic::wild(filter) && !n.topics.contains_key(filter) ==> generation(n, filter) == 0,
        topic::wild(filter) && n.global is None ==> generation(n, filter) == 0,
{
}

} // verus!
