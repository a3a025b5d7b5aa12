//! One live subscription.
//!
//! A subscription fetches messages from the store one at a time, hands each to
//! the subscribers it is for, waits for their acknowledgements, and settles the
//! message. It is a state machine: `step` is told what happened and says what is
//! to be done next. Sending, waiting and sleeping are up to the caller.
use vstd::prelude::*;
use vstd::string::*;

use crate::clock;
use crate::clock::UtcTime;
use crate::config::Config;
use crate::db;
use crate::db::Database;
use crate::delivery;
use crate::delivery::{SatwayMessage, SatwayView};
use crate::json;
use crate::messages::MessageStatus;
use crate::model::{ClaimedMessage, ClaimedView, DeliveryMode, PersistenceMode, TopicConfig};
use crate::queue;
use crate::queue::BadAttributes;
use crate::shard;
use crate::snapshot;
use crate::subscribers;
use crate::subscribers::{AckDecision, InflightAcks, Live, StreamSender, TopicSubscribers};
use crate::text;
use crate::topic;

verus! {

/// Why a message fails that no subscriber took.
pub const NOBODY_TOOK_IT: &'static str = "no live subscriber accepted the message";

/// Why a message fails that was not acknowledged.
pub const NO_ANSWER: &'static str = "ack timeout or subscriber gone";

/// Why a message fails that was refused without a reason.
pub const REFUSED: &'static str = "nack";

/// Why a message is not settled when the broker stops.
pub const STOPPING: &'static str = "broker shutting down";

/// What a subscription is.
pub struct SubscribeLoop {
    pub topic: String,
    pub session: String,
    pub consumer_id: String,
    pub tx: StreamSender,
    pub peer: String,
    pub protocol: &'static str,
    pub version: String,
    pub host: String,
    /// For how many seconds a claimed message is held.
    pub visibility: u64,
    /// How long to sleep when there is no message, in milliseconds.
    pub poll_ms: u64,
    pub max_attempts: i64,
}

#[verifier::ext_equal]
pub struct LoopView {
    pub topic: Seq<char>,
    pub session: Seq<char>,
    pub consumer_id: Seq<char>,
    pub tx: StreamSender,
    pub peer: Seq<char>,
    pub protocol: Seq<char>,
    pub version: Seq<char>,
    pub host: Seq<char>,
    pub visibility: u64,
    pub poll_ms: u64,
    pub max_attempts: i64,
}

impl View for SubscribeLoop {
    type V = LoopView;

    open spec fn view(&self) -> LoopView {
        LoopView {
            topic: self.topic@,
            session: self.session@,
            consumer_id: self.consumer_id@,
            tx: self.tx,
            peer: self.peer@,
            protocol: self.protocol@,
            version: self.version@,
            host: self.host@,
            visibility: self.visibility,
            poll_ms: self.poll_ms,
            max_attempts: self.max_attempts,
        }
    }
}

/// A message under way to subscribers.
pub struct Delivery {
    pub message: ClaimedMessage,
    /// Whether the topic is ephemeral: then nobody acknowledges.
    pub ephemeral: bool,
    /// The streams that the message is for.
    pub to: Vec<StreamSender>,
    /// The number of streams that were tried.
    pub tried: usize,
    /// The leases under which it was sent.
    pub leases: Vec<String>,
}

#[verifier::ext_equal]
pub struct DeliveryView {
    pub message: ClaimedView,
    pub ephemeral: bool,
    pub to: Seq<StreamSender>,
    pub tried: int,
    pub leases: Seq<Seq<char>>,
}

impl View for Delivery {
    type V = DeliveryView;

    open spec fn view(&self) -> DeliveryView {
        DeliveryView {
            message: self.message@,
            ephemeral: self.ephemeral,
            to: self.to@,
            tried: self.tried as int,
            leases: text::texts(self.leases@),
        }
    }
}

/// What the acknowledgements so far say.
pub struct Verdict {
    /// The number of acknowledgements that were waited for.
    pub heard: usize,
    pub all_ok: bool,
    pub last_error: String,
}

#[verifier::ext_equal]
pub struct VerdictView {
    pub heard: int,
    pub all_ok: bool,
    pub last_error: Seq<char>,
}

impl View for Verdict {
    type V = VerdictView;

    open spec fn view(&self) -> VerdictView {
        VerdictView {
            heard: self.heard as int,
            all_ok: self.all_ok,
            last_error: self.last_error@,
        }
    }
}

/// Where a subscription stands.
pub enum Phase {
    /// It is about to fetch a message.
    Turn,
    /// It is about to send a message to the next stream.
    Sending(Delivery),
    /// It waits to hear whether the message could be sent, under a lease.
    Sent(Delivery, String),
    /// It waits for an acknowledgement.
    Waiting(Delivery, Verdict),
    Over,
}

#[verifier::ext_equal]
pub enum PhaseView {
    Turn,
    Sending(DeliveryView),
    Sent(DeliveryView, Seq<char>),
    Waiting(DeliveryView, VerdictView),
    Over,
}

impl View for Phase {
    type V = PhaseView;

    open spec fn view(&self) -> PhaseView {
        match self {
            Phase::Turn => PhaseView::Turn,
            Phase::Sending(d) => PhaseView::Sending(d@),
            Phase::Sent(d, lease) => PhaseView::Sent(d@, lease@),
            Phase::Waiting(d, v) => PhaseView::Waiting(d@, v@),
            Phase::Over => PhaseView::Over,
        }
    }
}

/// What came of waiting for an acknowledgement.
pub enum Ack {
    Decided(AckDecision),
    /// The time ran out, or the subscriber is gone.
    Lost,
    /// The broker stops.
    Stopping,
}

/// What happened.
pub enum Event {
    /// Nothing was waited for. `closing`: the broker stops, or the subscriber is
    /// gone.
    Go { closing: bool },
    /// Whether a message could be sent.
    Sent { ok: bool },
    /// `stopping`: the broker stops.
    Acked { ack: Ack, stopping: bool },
}

/// What is to be done.
pub enum Action {
    /// Go on at once.
    Continue,
    /// Sleep so many milliseconds, then go on.
    Sleep { millis: u64 },
    /// Send a message, and tell whether that succeeded.
    Send { to: StreamSender, message: SatwayMessage },
    /// Wait so many seconds for the acknowledgement under a lease.
    Await { lease: String, secs: u64 },
    /// The subscription is over.
    Stop,
}

#[verifier::ext_equal]
pub enum ActionView {
    Continue,
    Sleep { millis: u64 },
    Send { to: StreamSender, message: SatwayView },
    Await { lease: Seq<char>, secs: u64 },
    Stop,
}

impl View for Action {
    type V = ActionView;

    open spec fn view(&self) -> ActionView {
        match self {
            Action::Continue => ActionView::Continue,
            Action::Sleep { millis } => ActionView::Sleep { millis: *millis },
            Action::Send { to, message } => ActionView::Send { to: *to, message: message@ },
            Action::Await { lease, secs } => ActionView::Await { lease: lease@, secs: *secs },
            Action::Stop => ActionView::Stop,
        }
    }
}

/// What a subscription works on: the store, the live subscriptions and the
/// acknowledgements that are waited for.
pub struct Board {
    pub db: Database,
    pub live: Live,
    pub pending: Map<Seq<char>, Seq<char>>,
}

// ------------------------------------------------------------------ a turn

/// The streams that a stored message is for: all that receive its topic where
/// it is broadcast (the subscriber's own where nobody does), else the
/// subscriber's own.
pub open spec fn are_addressees(
    l: LoopView,
    live: Live,
    topic: Seq<char>,
    delivery: DeliveryMode,
    to: Seq<StreamSender>,
) -> bool {
    if delivery == DeliveryMode::Broadcast {
        exists|list: Seq<(Seq<char>, StreamSender)>| #[trigger]
            subscribers::are_receivers(live, topic, list) && to == (if list.len() == 0 {
                seq![l.tx]
            } else {
                delivery::streams(list)
            })
    } else {
        to == seq![l.tx]
    }
}

/// A message is about to be sent.
pub open spec fn delivery_begun(
    l: LoopView,
    before: Board,
    after: Board,
    message: ClaimedView,
    d: DeliveryView,
) -> bool {
    let config = db::config_of(before.db, message.topic);
    &&& db::config_looked_up(before.db, after.db, message.topic)
    &&& d.message == message
    &&& d.ephemeral == (config.persistence == PersistenceMode::Ephemeral)
    &&& are_addressees(l, before.live, message.topic, config.delivery, d.to)
    &&& d.tried == 0
    &&& d.leases == Seq::<Seq<char>>::empty()
}

/// There is no message: the consumer was seen, and the subscription sleeps.
pub open spec fn idled(l: LoopView, before: Database, after: Database, now: UtcTime) -> bool {
    if l.consumer_id.len() == 0 {
        after == before
    } else {
        exists|known: bool| #[trigger]
            snapshot::consumer_touched(before, after, l.consumer_id, clock::time_text(now), known)
    }
}

/// What follows from fetching a message.
pub open spec fn fetched(
    l: LoopView,
    before: Board,
    after: Board,
    got: Result<Option<ClaimedMessage>, BadAttributes>,
    now: UtcTime,
    phase: PhaseView,
    action: ActionView,
) -> bool {
    match got {
        Err(_) => {
            &&& after.db == before.db
            &&& phase == PhaseView::Turn
            &&& action == (ActionView::Sleep { millis: l.poll_ms })
        },
        Ok(None) => {
            &&& idled(l, before.db, after.db, now)
            &&& phase == PhaseView::Turn
            &&& action == (ActionView::Sleep { millis: l.poll_ms })
        },
        Ok(Some(message)) => {
            &&& phase matches PhaseView::Sending(d)
            &&& delivery_begun(l, before, after, message@, d)
            &&& action == ActionView::Continue
        },
    }
}

/// A turn: a message is fetched, if there is one.
pub open spec fn turn_taken(
    l: LoopView,
    before: Board,
    after: Board,
    now: UtcTime,
    lease: Seq<char>,
    phase: PhaseView,
    action: ActionView,
) -> bool {
    &&& after.live == before.live
    &&& after.pending == before.pending
    &&& exists|mid: Database, got: Result<Option<ClaimedMessage>, BadAttributes>| #[trigger]
        queue::claimed_for_filter(before.db, mid, l.topic, now, l.visibility, lease, got)
            && fetched(l, Board { db: mid, ..before }, after, got, now, phase, action)
}

// ------------------------------------------------------------------ sending

/// A claimed message on its way to a subscriber, under a lease.
pub open spec fn outgoing(message: ClaimedView, lease: Seq<char>) -> SatwayView {
    SatwayView {
        message_id: message.id,
        topic: message.topic,
        payload: message.payload,
        attributes: json::attributes_of(json::json_of(message.attributes)),
        created_at: message.created_at,
        lease,
    }
}

/// The message is to be sent to the next stream, and an acknowledgement may come.
pub open spec fn send_begun(
    before: Board,
    after: Board,
    d: DeliveryView,
    lease: Seq<char>,
    phase: PhaseView,
    action: ActionView,
) -> bool {
    &&& after == (Board { pending: before.pending.insert(lease, d.message.id), ..before })
    &&& phase == PhaseView::Sent(DeliveryView { tried: d.tried + 1, ..d }, lease)
    &&& action == (ActionView::Send { to: d.to[d.tried], message: outgoing(d.message, lease) })
}

/// Where the message could not be sent, no acknowledgement is waited for.
pub open spec fn send_ended(
    before: Board,
    after: Board,
    d: DeliveryView,
    lease: Seq<char>,
    ok: bool,
    phase: PhaseView,
    action: ActionView,
) -> bool {
    &&& after == (if ok {
        before
    } else {
        Board { pending: before.pending.remove(lease), ..before }
    })
    &&& phase == PhaseView::Sending(
        if ok {
            DeliveryView { leases: d.leases.push(lease), ..d }
        } else {
            d
        },
    )
    &&& action == ActionView::Continue
}

/// Acknowledgements under some leases are no longer waited for.
pub open spec fn cancelled(
    pending: Map<Seq<char>, Seq<char>>,
    leases: Seq<Seq<char>>,
) -> Map<Seq<char>, Seq<char>>
    decreases leases.len(),
{
    if leases.len() == 0 {
        pending
    } else {
        cancelled(pending, leases.drop_last()).remove(leases.last())
    }
}

/// The message was marked delivered, if it was still held.
pub open spec fn marked_delivered(
    before: Database,
    after: Database,
    message: ClaimedView,
    now: UtcTime,
) -> bool {
    exists|ok: bool| #[trigger]
        db::delivered_once(before, after, message.id, message.lease, ok, now)
}

/// The attempt was ended as failed, if the message was still held.
pub open spec fn marked_failed(
    l: LoopView,
    before: Database,
    after: Database,
    message: ClaimedView,
    error: Seq<char>,
    now: UtcTime,
) -> bool {
    exists|ok: bool| #[trigger]
        queue::attempt_failed(
            before,
            after,
            message.id,
            message.lease,
            error,
            l.max_attempts,
            now,
            ok,
        )
}

/// The message was dropped, if it was still held.
pub open spec fn marked_dropped(
    before: Database,
    after: Database,
    message: ClaimedView,
    error: Seq<char>,
    now: UtcTime,
) -> bool {
    exists|ok: bool| #[trigger]
        queue::claimed_dropped(
            before,
            after,
            message.id,
            message.lease,
            error,
            clock::time_text(now),
            ok,
        )
}

/// Every stream was tried. An ephemeral message that somebody took is
/// delivered; one that nobody took is dropped. A persistent message that nobody
/// took has failed; else the acknowledgements are waited for.
pub open spec fn sends_ended(
    l: LoopView,
    before: Board,
    after: Board,
    d: DeliveryView,
    now: UtcTime,
    phase: PhaseView,
    action: ActionView,
) -> bool {
    &&& after.live == before.live
    &&& if d.leases.len() == 0 {
        &&& after.pending == before.pending
        &&& phase == PhaseView::Turn
        &&& action == ActionView::Continue
        &&& if d.ephemeral {
            marked_dropped(before.db, after.db, d.message, NOBODY_TOOK_IT@, now)
        } else {
            marked_failed(l, before.db, after.db, d.message, NOBODY_TOOK_IT@, now)
        }
    } else if d.ephemeral {
        &&& after.pending == cancelled(before.pending, d.leases)
        &&& phase == PhaseView::Turn
        &&& action == ActionView::Continue
        &&& marked_delivered(before.db, after.db, d.message, now)
    } else {
        &&& after == before
        &&& phase == PhaseView::Waiting(
            d,
            VerdictView { heard: 0, all_ok: true, last_error: NO_ANSWER@ },
        )
        &&& action == (ActionView::Await { lease: d.leases[0], secs: l.visibility })
    }
}

// ------------------------------------------------------------------ settling

/// The verdict after one more acknowledgement.
pub open spec fn heard(v: VerdictView, ack: Ack) -> VerdictView {
    match ack {
        Ack::Decided(decision) => if decision.success {
            VerdictView { heard: v.heard + 1, ..v }
        } else {
            VerdictView {
                heard: v.heard + 1,
                all_ok: false,
                last_error: if decision.error@.len() == 0 {
                    REFUSED@
                } else {
                    decision.error@
                },
            }
        },
        Ack::Lost => VerdictView { heard: v.heard + 1, all_ok: false, ..v },
        Ack::Stopping => VerdictView {
            heard: v.heard + 1,
            all_ok: false,
            last_error: STOPPING@,
        },
    }
}

/// The message was settled by what the subscribers said: delivered where all
/// took it, else failed.
pub open spec fn settled(
    l: LoopView,
    before: Board,
    after: Board,
    d: DeliveryView,
    v: VerdictView,
    now: UtcTime,
) -> bool {
    &&& after.live == before.live
    &&& after.pending == cancelled(before.pending, d.leases)
    &&& if v.all_ok {
        marked_delivered(before.db, after.db, d.message, now)
    } else {
        marked_failed(l, before.db, after.db, d.message, v.last_error, now)
    }
}

/// An acknowledgement came, or did not come in time.
pub open spec fn ack_heard(
    l: LoopView,
    before: Board,
    after: Board,
    d: DeliveryView,
    v: VerdictView,
    stopping: bool,
    now: UtcTime,
    phase: PhaseView,
    action: ActionView,
) -> bool {
    if stopping {
        ended(
            l,
            Board { pending: cancelled(before.pending, d.leases), ..before },
            after,
            now,
            phase,
            action,
        )
    } else if v.heard < d.leases.len() {
        &&& after == before
        &&& phase == PhaseView::Waiting(d, v)
        &&& action == (ActionView::Await { lease: d.leases[v.heard], secs: l.visibility })
    } else {
        &&& settled(l, before, after, d, v, now)
        &&& phase == PhaseView::Turn
        &&& action == ActionView::Continue
    }
}

// ----------------------------------------------------------------- the end

/// The waiting messages of an ephemeral topic were dropped where its last
/// subscriber left.
pub open spec fn abandoned(
    l: LoopView,
    before: Database,
    after: Database,
    live: Live,
    now: UtcTime,
) -> bool {
    if topic::wild(l.topic) || subscribers::covered(live, l.topic) {
        after == before
    } else {
        exists|mid: Database| #[trigger]
            db::config_looked_up(before, mid, l.topic) && if db::config_of(
                before,
                l.topic,
            ).persistence == PersistenceMode::Ephemeral {
                exists|n: int| #[trigger]
                    queue::pending_dropped(mid, after, l.topic, clock::time_text(now), n)
            } else {
                after == mid
            }
    }
}

/// The subscription ended.
pub open spec fn ended(
    l: LoopView,
    before: Board,
    after: Board,
    now: UtcTime,
    phase: PhaseView,
    action: ActionView,
) -> bool {
    &&& after.live == subscribers::removed(before.live, l.topic, l.session)
    &&& after.pending == before.pending
    &&& abandoned(l, before.db, after.db, after.live, now)
    &&& phase == PhaseView::Over
    &&& action == ActionView::Stop
}

/// A step of a subscription. What a phase does not expect changes nothing.
pub open spec fn stepped(
    l: LoopView,
    before: Board,
    after: Board,
    phase: PhaseView,
    event: Event,
    now: UtcTime,
    fresh: Seq<char>,
    next: PhaseView,
    action: ActionView,
) -> bool {
    match (phase, event) {
        (PhaseView::Turn, Event::Go { closing }) => if closing {
            ended(l, before, after, now, next, action)
        } else {
            turn_taken(l, before, after, now, fresh, next, action)
        },
        (PhaseView::Sending(d), Event::Go { closing }) => if d.tried < d.to.len() {
            send_begun(before, after, d, fresh, next, action)
        } else {
            sends_ended(l, before, after, d, now, next, action)
        },
        (PhaseView::Sent(d, lease), Event::Sent { ok }) => send_ended(
            before,
            after,
            d,
            lease,
            ok,
            next,
            action,
        ),
        (PhaseView::Waiting(d, v), Event::Acked { ack, stopping }) => ack_heard(
            l,
            before,
            after,
            d,
            heard(v, ack),
            stopping,
            now,
            next,
            action,
        ),
        (PhaseView::Over, _) => after == before && next == phase && action == ActionView::Stop,
        _ => after == before && next == phase && action == ActionView::Continue,
    }
}

/// The entry of a subscription among the live ones.
pub open spec fn live_entry(l: LoopView, now: Seq<char>) -> subscribers::LiveView {
    subscribers::LiveView {
        info: subscribers::SessionView {
            id: l.session,
            topic: l.topic,
            peer: l.peer,
            connected_at: now,
            protocol: l.protocol,
            version: l.version,
            host: l.host,
        },
        tx: l.tx,
    }
}

// --------------------------------------------------------------- execution

/// A subscription and where it stands.
pub struct Subscription {
    pub args: SubscribeLoop,
    pub phase: Phase,
}

impl SubscribeLoop {
    /// A subscription under the settings of the broker.
    pub fn new(
        config: &Config,
        topic: String,
        session: String,
        consumer_id: String,
        tx: StreamSender,
        peer: String,
        protocol: &'static str,
        version: String,
        host: String,
    ) -> (r: SubscribeLoop)
        ensures
            r@ == (LoopView {
                topic: topic@,
                session: session@,
                consumer_id: consumer_id@,
                tx,
                peer: peer@,
                protocol: protocol@,
                version: version@,
                host: host@,
                visibility: config.visibility(),
                poll_ms: config.worker_poll_ms,
                max_attempts: config.max_delivery_attempts,
            }),
    {
        SubscribeLoop {
            topic,
            session,
            consumer_id,
            tx,
            peer,
            protocol,
            version,
            host,
            visibility: config.visibility_secs(),
            poll_ms: config.worker_poll_ms,
            max_attempts: config.max_delivery_attempts,
        }
    }

    fn addressees(&self, live: &TopicSubscribers, topic: &str, delivery: DeliveryMode) -> (r: Vec<
        StreamSender,
    >)
        ensures
            are_addressees(self@, live@, topic@, delivery, r@),
    {
        let mut to: Vec<StreamSender> = Vec::new();
        if delivery == DeliveryMode::Broadcast {
            let senders: Vec<(String, StreamSender)> = live.matching_senders(topic);
            let ghost list = subscribers::sender_views(senders@);
            let mut i: usize = 0;
            while i < senders.len()
                invariant
                    i <= senders@.len(),
                    list == subscribers::sender_views(senders@),
                    to@.len() == i,
                    forall|k: int| 0 <= k < i ==> #[trigger] to@[k] == delivery::streams(list)[k],
                decreases senders.len() - i,
            {
                to.push(senders[i].1);
                i = i + 1;
            }
            if to.len() == 0 {
                to.push(self.tx);
                proof {
                    assert(to@ =~= seq![self.tx]);
                }
            } else {
                proof {
                    assert(to@ =~= delivery::streams(list));
                }
            }
            proof {
                assert(subscribers::are_receivers(live@, topic@, list));
            }
        } else {
            to.push(self.tx);
            proof {
                assert(to@ =~= seq![self.tx]);
            }
        }
        to
    }

    /// Fetches a message.
    fn take_turn(
        &self,
        database: &mut Database,
        live: &TopicSubscribers,
        now: UtcTime,
        lease: &str,
    ) -> (r: (Phase, Action))
        requires
            old(database).wf(),
            now.valid(),
        ensures
            final(database).wf(),
            forall|pending: Map<Seq<char>, Seq<char>>| #[trigger]
                turn_taken(
                    self@,
                    Board { db: *old(database), live: live@, pending },
                    Board { db: *final(database), live: live@, pending },
                    now,
                    lease@,
                    r.0@,
                    r.1@,
                ),
    {
        let got: Result<Option<ClaimedMessage>, BadAttributes> = database.claim_next_for_filter_at(
            self.topic.as_str(),
            now,
            self.visibility,
            lease,
        );
        let ghost mid = *database;
        let ghost claim = got;
        let r: (Phase, Action) = match got {
            Err(_) => (Phase::Turn, Action::Sleep { millis: self.poll_ms }),
            Ok(None) => {
                if !self.consumer_id.as_str().is_empty() {
                    let at: String = clock::text_of(now);
                    let known: bool = database.touch_consumer_at(
                        self.consumer_id.as_str(),
                        at.as_str(),
                    );
                    proof {
                        assert(snapshot::consumer_touched(
                            mid,
                            *database,
                            self@.consumer_id,
                            clock::time_text(now),
                            known,
                        ));
                    }
                }
                (Phase::Turn, Action::Sleep { millis: self.poll_ms })
            },
            Ok(Some(message)) => {
                let settings: TopicConfig = database.topic_config(message.topic.as_str());
                let to: Vec<StreamSender> = self.addressees(
                    live,
                    message.topic.as_str(),
                    settings.delivery,
                );
                let d: Delivery = Delivery {
                    message,
                    ephemeral: settings.persistence == PersistenceMode::Ephemeral,
                    to,
                    tried: 0,
                    leases: Vec::new(),
                };
                proof {
                    assert(d@.leases =~= Seq::<Seq<char>>::empty());
                }
                (Phase::Sending(d), Action::Continue)
            },
        };
        proof {
            assert forall|pending: Map<Seq<char>, Seq<char>>| #[trigger]
                turn_taken(
                    self@,
                    Board { db: *old(database), live: live@, pending },
                    Board { db: *database, live: live@, pending },
                    now,
                    lease@,
                    r.0@,
                    r.1@,
                ) by {
                let b = Board { db: *old(database), live: live@, pending };
                assert(Board { db: mid, ..b } == Board { db: mid, live: live@, pending });
                assert(queue::claimed_for_filter(
                    b.db,
                    mid,
                    self@.topic,
                    now,
                    self@.visibility,
                    lease@,
                    claim,
                ) && fetched(
                    self@,
                    Board { db: mid, ..b },
                    Board { db: *database, live: live@, pending },
                    claim,
                    now,
                    r.0@,
                    r.1@,
                ));
            }
        }
        r
    }

    /// Hands the message to the next stream.
    fn send_next(&self, inflight: &mut InflightAcks, d: Delivery, lease: String) -> (r: (
        Phase,
        Action,
    ))
        requires
            d.tried < d.to@.len(),
        ensures
            forall|db: Database, live: Live| #[trigger]
                send_begun(
                    Board { db, live, pending: old(inflight)@ },
                    Board { db, live, pending: final(inflight)@ },
                    d@,
                    lease@,
                    r.0@,
                    r.1@,
                ),
    {
        inflight.register(d.message.id.clone(), lease.clone());
        let payload: Vec<u8> = d.message.payload.clone();
        proof {
            assert(payload@ =~= d.message.payload@);
        }
        let message: SatwayMessage = SatwayMessage {
            message_id: d.message.id.clone(),
            topic: d.message.topic.clone(),
            payload,
            attributes: delivery::attrs_to_map(d.message.attributes.as_str()),
            created_at: d.message.created_at.clone(),
            lease: lease.clone(),
        };
        let n: usize = d.to.len();
        assert(d.tried < n);
        let to: StreamSender = d.to[d.tried];
        let next: Delivery = Delivery { tried: d.tried + 1, ..d };
        (Phase::Sent(next, lease), Action::Send { to, message })
    }

    /// Hears whether the message could be sent.
    fn hear_sent(&self, inflight: &mut InflightAcks, d: Delivery, lease: String, ok: bool) -> (r: (
        Phase,
        Action,
    ))
        ensures
            forall|db: Database, live: Live| #[trigger]
                send_ended(
                    Board { db, live, pending: old(inflight)@ },
                    Board { db, live, pending: final(inflight)@ },
                    d@,
                    lease@,
                    ok,
                    r.0@,
                    r.1@,
                ),
    {
        if ok {
            let mut leases: Vec<String> = d.leases;
            let ghost before = text::texts(leases@);
            leases.push(lease);
            proof {
                assert(text::texts(leases@) =~= before.push(lease@));
            }
            let next: Delivery = Delivery { leases, ..d };
            (Phase::Sending(next), Action::Continue)
        } else {
            inflight.cancel(lease.as_str());
            (Phase::Sending(d), Action::Continue)
        }
    }

    fn fail(
        &self,
        database: &mut Database,
        message: &ClaimedMessage,
        error: &str,
        now: UtcTime,
    )
        requires
            old(database).wf(),
            now.valid(),
        ensures
            final(database).wf(),
            marked_failed(self@, *old(database), *final(database), message@, error@, now),
    {
        let ok: bool = database.failed_at(
            message.id.as_str(),
            message.lease.as_str(),
            error,
            self.max_attempts,
            now,
        );
        proof {
            assert(queue::attempt_failed(
                *old(database),
                *database,
                message@.id,
                message@.lease,
                error@,
                self@.max_attempts,
                now,
                ok,
            ));
        }
    }

    /// Decides what to do when every stream was tried.
    fn sends_over(
        &self,
        database: &mut Database,
        inflight: &mut InflightAcks,
        d: Delivery,
        now: UtcTime,
    ) -> (r: (Phase, Action))
        requires
            old(database).wf(),
            now.valid(),
        ensures
            final(database).wf(),
            forall|live: Live| #[trigger]
                sends_ended(
                    self@,
                    Board { db: *old(database), live, pending: old(inflight)@ },
                    Board { db: *final(database), live, pending: final(inflight)@ },
                    d@,
                    now,
                    r.0@,
                    r.1@,
                ),
    {
        if d.leases.len() == 0 {
            if d.ephemeral {
                let at: String = clock::text_of(now);
                let ok: bool = database.drop_claimed_at(
                    d.message.id.as_str(),
                    d.message.lease.as_str(),
                    NOBODY_TOOK_IT,
                    at.as_str(),
                );
                proof {
                    assert(queue::claimed_dropped(
                        *old(database),
                        *database,
                        d@.message.id,
                        d@.message.lease,
                        NOBODY_TOOK_IT@,
                        clock::time_text(now),
                        ok,
                    ));
                }
            } else {
                self.fail(database, &d.message, NOBODY_TOOK_IT, now);
            }
            return (Phase::Turn, Action::Continue);
        }
        if d.ephemeral {
            cancel_all(inflight, &d.leases);
            deliver(database, &d.message, now);
            return (Phase::Turn, Action::Continue);
        }
        let verdict: Verdict = Verdict {
            heard: 0,
            all_ok: true,
            last_error: NO_ANSWER.to_string(),
        };
        let lease: String = d.leases[0].clone();
        proof {
            assert(d@.leases[0] == lease@);
        }
        (Phase::Waiting(d, verdict), Action::Await { lease, secs: self.visibility })
    }

    /// Decides what to do when an acknowledgement came, or did not come.
    fn hear_ack(
        &self,
        database: &mut Database,
        live: &mut TopicSubscribers,
        inflight: &mut InflightAcks,
        d: Delivery,
        v: Verdict,
        stopping: bool,
        now: UtcTime,
    ) -> (r: (Phase, Action))
        requires
            old(database).wf(),
            now.valid(),
        ensures
            final(database).wf(),
            ack_heard(
                self@,
                (Board { db: *old(database), live: old(live)@, pending: old(inflight)@ }),
                (Board { db: *final(database), live: final(live)@, pending: final(inflight)@ }),
                d@,
                v@,
                stopping,
                now,
                r.0@,
                r.1@,
            ),
    {
        if stopping {
            cancel_all(inflight, &d.leases);
            let ghost pending = inflight@;
            let r: (Phase, Action) = self.finish(database, live, now);
            proof {
                assert(ended(
                    self@,
                    Board { db: *old(database), live: old(live)@, pending },
                    Board { db: *database, live: live@, pending },
                    now,
                    r.0@,
                    r.1@,
                ));
            }
            return r;
        }
        if v.heard < d.leases.len() {
            let lease: String = d.leases[v.heard].clone();
            proof {
                assert(d@.leases[v@.heard] == lease@);
            }
            return (Phase::Waiting(d, v), Action::Await { lease, secs: self.visibility });
        }
        cancel_all(inflight, &d.leases);
        if v.all_ok {
            deliver(database, &d.message, now);
        } else {
            self.fail(database, &d.message, v.last_error.as_str(), now);
        }
        (Phase::Turn, Action::Continue)
    }

    /// Ends the subscription.
    fn finish(&self, database: &mut Database, live: &mut TopicSubscribers, now: UtcTime) -> (r: (
        Phase,
        Action,
    ))
        requires
            old(database).wf(),
            now.valid(),
        ensures
            final(database).wf(),
            forall|pending: Map<Seq<char>, Seq<char>>| #[trigger]
                ended(
                    self@,
                    Board { db: *old(database), live: old(live)@, pending },
                    Board { db: *final(database), live: final(live)@, pending },
                    now,
                    r.0@,
                    r.1@,
                ),
    {
        live.remove(self.topic.as_str(), self.session.as_str());
        if !topic::is_wildcard_filter(self.topic.as_str()) && !live.covers(self.topic.as_str()) {
            let mode: PersistenceMode = database.topic_persistence(self.topic.as_str());
            let ghost mid = *database;
            proof {
                assert(db::config_looked_up(*old(database), mid, self@.topic));
            }
            if mode == PersistenceMode::Ephemeral {
                let at: String = clock::text_of(now);
                let n: usize = database.drop_pending_at(self.topic.as_str(), at.as_str());
                proof {
                    assert(queue::pending_dropped(
                        mid,
                        *database,
                        self@.topic,
                        clock::time_text(now),
                        n as int,
                    ));
                }
            }
        }
        (Phase::Over, Action::Stop)
    }
}

fn deliver(database: &mut Database, message: &ClaimedMessage, now: UtcTime)
    requires
        old(database).wf(),
        now.valid(),
    ensures
        final(database).wf(),
        marked_delivered(*old(database), *final(database), message@, now),
{
    let ok: bool = database.delivered_at(message.id.as_str(), message.lease.as_str(), now);
    proof {
        assert(db::delivered_once(
            *old(database),
            *database,
            message@.id,
            message@.lease,
            ok,
            now,
        ));
    }
}

fn cancel_all(inflight: &mut InflightAcks, leases: &Vec<String>)
    ensures
        final(inflight)@ == cancelled(old(inflight)@, text::texts(leases@)),
{
    let ghost all = text::texts(leases@);
    let ghost before = inflight@;
    let mut i: usize = 0;
    while i < leases.len()
        invariant
            i <= leases@.len(),
            all == text::texts(leases@),
            inflight@ == cancelled(before, all.take(i as int)),
        decreases leases.len() - i,
    {
        proof {
            assert(all.take(i + 1).drop_last() =~= all.take(i as int));
            assert(all.take(i + 1).last() == leases@[i as int]@);
        }
        inflight.cancel(leases[i].as_str());
        i = i + 1;
    }
    proof {
        assert(all.take(all.len() as int) =~= all);
    }
}

fn hear(v: Verdict, ack: Ack) -> (r: Verdict)
    requires
        v.heard < usize::MAX,
    ensures
        r@ == heard(v@, ack),
{
    let count: usize = v.heard + 1;
    match ack {
        Ack::Decided(decision) => if decision.success {
            Verdict { heard: count, ..v }
        } else {
            let last_error: String = if decision.error.as_str().is_empty() {
                REFUSED.to_string()
            } else {
                decision.error
            };
            Verdict { heard: count, all_ok: false, last_error }
        },
        Ack::Lost => Verdict { heard: count, all_ok: false, ..v },
        Ack::Stopping => Verdict {
            heard: count,
            all_ok: false,
            last_error: STOPPING.to_string(),
        },
    }
}

impl Subscription {
    /// What is waited for is counted against the leases.
    pub open spec fn wf(&self) -> bool {
        match self.phase {
            Phase::Waiting(d, v) => v.heard < d.leases@.len(),
            _ => true,
        }
    }

    /// A subscription that is live from now on.
    pub fn start(args: SubscribeLoop, live: &mut TopicSubscribers) -> (r: Subscription)
        ensures
            r.wf(),
            r.args == args,
            r.phase@ == PhaseView::Turn,
            exists|now: UtcTime|
                now.valid() && final(live)@ == subscribers::added(
                    old(live)@,
                    args@.topic,
                    args@.session,
                    live_entry(args@, #[trigger] clock::time_text(now)),
                ),
    {
        live.add_with_identity(
            args.topic.as_str(),
            args.session.as_str(),
            args.tx,
            args.peer.as_str(),
            args.protocol,
            args.version.as_str(),
            args.host.as_str(),
        );
        Subscription { args, phase: Phase::Turn }
    }

    /// Takes a step now.
    pub fn step(
        &mut self,
        database: &mut Database,
        live: &mut TopicSubscribers,
        inflight: &mut InflightAcks,
        event: Event,
    ) -> (action: Action)
        requires
            old(self).wf(),
            old(database).wf(),
        ensures
            final(self).wf(),
            final(self).args == old(self).args,
            final(database).wf(),
            exists|now: UtcTime, fresh: Seq<char>|
                now.valid() && shard::is_uuid_text(fresh) && #[trigger] stepped(
                    old(self).args@,
                    (Board { db: *old(database), live: old(live)@, pending: old(inflight)@ }),
                    (Board { db: *final(database), live: final(live)@, pending: final(inflight)@ }),
                    old(self).phase@,
                    event,
                    now,
                    fresh,
                    final(self).phase@,
                    action@,
                ),
    {
        self.step_at(database, live, inflight, event, clock::now(), shard::random_id())
    }

    /// Takes a step at the time `now`, with a fresh identifier.
    pub fn step_at(
        &mut self,
        database: &mut Database,
        live: &mut TopicSubscribers,
        inflight: &mut InflightAcks,
        event: Event,
        now: UtcTime,
        fresh: String,
    ) -> (action: Action)
        requires
            old(self).wf(),
            old(database).wf(),
            now.valid(),
        ensures
            final(self).wf(),
            final(self).args == old(self).args,
            final(database).wf(),
            stepped(
                old(self).args@,
                (Board { db: *old(database), live: old(live)@, pending: old(inflight)@ }),
                (Board { db: *final(database), live: final(live)@, pending: final(inflight)@ }),
                old(self).phase@,
                event,
                now,
                fresh@,
                final(self).phase@,
                action@,
            ),
    {
        let ghost before = Board { db: *database, live: live@, pending: inflight@ };
        let mut phase: Phase = Phase::Over;
        std::mem::swap(&mut phase, &mut self.phase);
        let (next, action): (Phase, Action) = match (phase, event) {
            (Phase::Turn, Event::Go { closing }) => if closing {
                let r: (Phase, Action) = self.args.finish(database, live, now);
                proof {
                    assert(ended(
                        self.args@,
                        before,
                        Board { db: *database, live: live@, pending: inflight@ },
                        now,
                        r.0@,
                        r.1@,
                    ));
                }
                r
            } else {
                let r: (Phase, Action) = self.args.take_turn(database, live, now, fresh.as_str());
                proof {
                    assert(turn_taken(
                        self.args@,
                        before,
                        Board { db: *database, live: live@, pending: inflight@ },
                        now,
                        fresh@,
                        r.0@,
                        r.1@,
                    ));
                }
                r
            },
            (Phase::Sending(d), Event::Go { closing: _ }) => if d.tried < d.to.len() {
                let r: (Phase, Action) = self.args.send_next(inflight, d, fresh);
                proof {
                    assert(send_begun(
                        before,
                        Board { db: *database, live: live@, pending: inflight@ },
                        d@,
                        fresh@,
                        r.0@,
                        r.1@,
                    ));
                }
                r
            } else {
                let r: (Phase, Action) = self.args.sends_over(database, inflight, d, now);
                proof {
                    assert(sends_ended(
                        self.args@,
                        before,
                        Board { db: *database, live: live@, pending: inflight@ },
                        d@,
                        now,
                        r.0@,
                        r.1@,
                    ));
                }
                r
            },
            (Phase::Sent(d, lease), Event::Sent { ok }) => {
                let r: (Phase, Action) = self.args.hear_sent(inflight, d, lease, ok);
                proof {
                    assert(send_ended(
                        before,
                        Board { db: *database, live: live@, pending: inflight@ },
                        d@,
                        lease@,
                        ok,
                        r.0@,
                        r.1@,
                    ));
                }
                r
            },
            (Phase::Waiting(d, v), Event::Acked { ack, stopping }) => {
                let n: usize = d.leases.len();
                assert(v.heard < n);
                let verdict: Verdict = hear(v, ack);
                self.args.hear_ack(database, live, inflight, d, verdict, stopping, now)
            },
            (Phase::Over, _) => (Phase::Over, Action::Stop),
            (other, _) => (other, Action::Continue),
        };
        self.phase = next;
        action
    }
}

// -------------------------------------------------------------------- laws

proof fn lemma_cancelled(pending: Map<Seq<char>, Seq<char>>, leases: Seq<Seq<char>>)
    ensures
        forall|k: Seq<char>| #[trigger]
            cancelled(pending, leases).contains_key(k) <==> pending.contains_key(k)
                && !leases.contains(k),
    decreases leases.len(),
{
    if leases.len() > 0 {
        let init = leases.drop_last();
        lemma_cancelled(pending, init);
        assert forall|k: Seq<char>| #[trigger]
            cancelled(pending, leases).contains_key(k) <==> pending.contains_key(k)
                && !leases.contains(k) by {
            assert(cancelled(pending, init).contains_key(k) <==> pending.contains_key(k)
                && !init.contains(k));
            assert(leases[leases.len() - 1] == leases.last());
            if init.contains(k) {
                assert(leases[init.index_of(k)] == k);
            }
            if leases.contains(k) && k != leases.last() {
                assert(init[leases.index_of(k)] == k);
            }
        }
    }
}

/// The message that a subscription is handing out.
pub open spec fn in_hand(phase: PhaseView) -> Option<DeliveryView> {
    match phase {
        PhaseView::Sending(d) => Some(d),
        PhaseView::Sent(d, _) => Some(d),
        PhaseView::Waiting(d, _) => Some(d),
        _ => None,
    }
}

/// When a message was sent and its turn or the subscription is over, nobody
/// waits under its leases any more.
pub proof fn law_no_lease_outlives_its_turn(
    l: LoopView,
    before: Board,
    after: Board,
    phase: PhaseView,
    d: DeliveryView,
    event: Event,
    now: UtcTime,
    fresh: Seq<char>,
    next: PhaseView,
    action: ActionView,
)
    requires
        stepped(l, before, after, phase, event, now, fresh, next, action),
        in_hand(phase) == Some(d),
        next == PhaseView::Turn || next == PhaseView::Over,
    ensures
        forall|k: int| 0 <= k < d.leases.len() ==> !after.pending.contains_key(#[trigger] d.leases[k]),
{
    lemma_cancelled(before.pending, d.leases);
    assert forall|k: int| 0 <= k < d.leases.len() implies !after.pending.contains_key(
        #[trigger] d.leases[k],
    ) by {
        assert(d.leases.contains(d.leases[k]));
    }
}

/// A persistent message is marked delivered only after every subscriber that
/// got it acknowledged it, and never when one of them refused it.
pub proof fn law_delivered_means_acknowledged(
    l: LoopView,
    before: Board,
    after: Board,
    d: DeliveryView,
    v: VerdictView,
    ack: Ack,
    now: UtcTime,
    fresh: Seq<char>,
    next: PhaseView,
    action: ActionView,
)
    requires
        stepped(
            l,
            before,
            after,
            PhaseView::Waiting(d, v),
            Event::Acked { ack, stopping: false },
            now,
            fresh,
            next,
            action,
        ),
        next == PhaseView::Turn,
    ensures
        v.heard + 1 >= d.leases.len(),
        v.all_ok && (ack matches Ack::Decided(decision) && decision.success) ==> marked_delivered(
            before.db,
            after.db,
            d.message,
            now,
        ),
        !(v.all_ok && (ack matches Ack::Decided(decision) && decision.success)) ==> marked_failed(
            l,
            before.db,
            after.db,
            d.message,
            heard(v, ack).last_error,
            now,
        ),
{
}

/// A refusal is never forgotten: once a subscriber refused a message or did not
/// answer, no later acknowledgement makes it good.
pub proof fn law_a_refusal_stays(v: VerdictView, ack: Ack)
    requires
        !v.all_ok,
    ensures
        !heard(v, ack).all_ok,
{
}

/// When the broker stops, the messages in hand stay as they are: they are
/// neither delivered nor failed.
pub proof fn law_stopping_settles_nothing(
    l: LoopView,
    before: Board,
    after: Board,
    phase: PhaseView,
    event: Event,
    now: UtcTime,
    fresh: Seq<char>,
    action: ActionView,
    s: int,
    i: int,
)
    requires
        stepped(l, before, after, phase, event, now, fresh, PhaseView::Over, action),
        before.db.wf(),
        0 <= s < before.db.rows().len(),
        0 <= i < before.db.rows()[s].len(),
        before.db.rows()[s][i].status == MessageStatus::Processing,
    ensures
        after.db.rows().len() == before.db.rows().len(),
        after.db.rows()[s].len() == before.db.rows()[s].len(),
        after.db.rows()[s][i] == before.db.rows()[s][i],
        action == ActionView::Stop,
{
    if after.db != before.db {
        let mid = choose|mid: Database| #[trigger]
            db::config_looked_up(before.db, mid, l.topic) && if db::config_of(
                before.db,
                l.topic,
            ).persistence == PersistenceMode::Ephemeral {
                exists|n: int| #[trigger]
                    queue::pending_dropped(mid, after.db, l.topic, clock::time_text(now), n)
            } else {
                after.db == mid
            };
        assert(mid.rows() == before.db.rows());
        shard::law_every_topic_has_a_shard(l.topic);
        assert(before.db.rows().len() == 16);
    }
}

/// A turn hands a fetched message on. It is ephemeral exactly where its topic
/// is, nothing was sent yet, and outside a broadcast it is for the subscriber
/// alone. A broadcast goes once to every session with a filter that selects the
/// topic, and to the subscriber where there is none.
pub proof fn law_a_fetched_message_goes_to_its_addressees(
    l: LoopView,
    before: Board,
    after: Board,
    now: UtcTime,
    fresh: Seq<char>,
    next: PhaseView,
    action: ActionView,
    d: DeliveryView,
)
    requires
        stepped(
            l,
            before,
            after,
            PhaseView::Turn,
            Event::Go { closing: false },
            now,
            fresh,
            next,
            action,
        ),
        next == PhaseView::Sending(d),
    ensures
        action == ActionView::Continue,
        after.live == before.live,
        after.pending == before.pending,
        d.tried == 0,
        d.leases.len() == 0,
        exists|mid: Database, got: ClaimedMessage| #[trigger]
            queue::claimed_for_filter(
                before.db,
                mid,
                l.topic,
                now,
                l.visibility,
                fresh,
                Ok(Some(got)),
            ) && d.message == got@ && after.db.rows() == mid.rows() && ({
                let config = db::config_of(mid, got@.topic);
                &&& d.ephemeral <==> config.persistence == PersistenceMode::Ephemeral
                &&& config.delivery != DeliveryMode::Broadcast ==> d.to == seq![l.tx]
                &&& config.delivery == DeliveryMode::Broadcast ==> {
                    ||| d.to == seq![l.tx] && forall|s: Seq<char>|
                        !#[trigger] subscribers::receives(before.live, got@.topic, s)
                    ||| d.to.len() > 0 && exists|sessions: Seq<Seq<char>>|
                        sessions.len() == d.to.len() && sessions.no_duplicates() && (forall|
                            s: Seq<char>,
                        |
                            sessions.contains(s) <==> #[trigger] subscribers::receives(
                                before.live,
                                got@.topic,
                                s,
                            )) && (forall|k: int|
                            0 <= k < sessions.len() ==> subscribers::receives_on(
                                before.live,
                                got@.topic,
                                #[trigger] sessions[k],
                                d.to[k],
                            ))
                }
            }),
{
    let (mid, got) = choose|mid: Database, got: Result<Option<ClaimedMessage>, BadAttributes>|
        #[trigger] queue::claimed_for_filter(before.db, mid, l.topic, now, l.visibility, fresh, got)
            && fetched(l, Board { db: mid, ..before }, after, got, now, next, action);
    let message = got->Ok_0->Some_0;
    assert(got == Ok::<Option<ClaimedMessage>, BadAttributes>(Some(message)));
    let config = db::config_of(mid, message@.topic);
    if config.delivery == DeliveryMode::Broadcast {
        let list = choose|list: Seq<(Seq<char>, StreamSender)>| #[trigger]
            subscribers::are_receivers(before.live, message@.topic, list) && d.to == (
            if list.len() == 0 {
                seq![l.tx]
            } else {
                delivery::streams(list)
            });
        let sessions = subscribers::session_ids(list);
        if list.len() == 0 {
            assert forall|s: Seq<char>| !#[trigger]
                subscribers::receives(before.live, message@.topic, s) by {
                assert(!sessions.contains(s));
            }
        } else {
            assert forall|k: int| 0 <= k < sessions.len() implies subscribers::receives_on(
                before.live,
                message@.topic,
                #[trigger] sessions[k],
                d.to[k],
            ) by {
                assert(sessions[k] == list[k].0);
                assert(d.to[k] == list[k].1);
            }
            assert(sessions.len() == d.to.len() && sessions.no_duplicates());
        }
    }
}

/// Where no message is fetched, the subscription sleeps for as long as it was
/// told and then takes another turn.
pub proof fn law_a_subscription_sleeps_between_turns(
    l: LoopView,
    before: Board,
    after: Board,
    now: UtcTime,
    fresh: Seq<char>,
    next: PhaseView,
    action: ActionView,
)
    requires
        stepped(
            l,
            before,
            after,
            PhaseView::Turn,
            Event::Go { closing: false },
            now,
            fresh,
            next,
            action,
        ),
    ensures
        next == PhaseView::Turn || next is Sending,
        next == PhaseView::Turn <==> action is Sleep,
        action is Sleep ==> action->millis == l.poll_ms,
        after.live == before.live,
        after.pending == before.pending,
{
}

/// The streams of a message are tried one after the other, each under a lease of
/// its own, and what is sent carries the message and that lease.
pub proof fn law_each_stream_is_sent_the_message(
    l: LoopView,
    before: Board,
    after: Board,
    d: DeliveryView,
    closing: bool,
    now: UtcTime,
    fresh: Seq<char>,
    next: PhaseView,
    action: ActionView,
)
    requires
        stepped(
            l,
            before,
            after,
            PhaseView::Sending(d),
            Event::Go { closing },
            now,
            fresh,
            next,
            action,
        ),
        0 <= d.tried < d.to.len(),
    ensures
        action matches ActionView::Send { to, message } && to == d.to[d.tried] && message.message_id
            == d.message.id && message.topic == d.message.topic && message.payload
            == d.message.payload && message.created_at == d.message.created_at && message.lease
            == fresh && message.attributes == json::attributes_of(
            json::json_of(d.message.attributes),
        ),
        next matches PhaseView::Sent(now_sent, lease) && lease == fresh && now_sent.tried == d.tried
            + 1 && now_sent.message == d.message && now_sent.to == d.to && now_sent.leases
            == d.leases && now_sent.ephemeral == d.ephemeral,
        subscribers::awaited(after.pending, d.message.id, fresh),
        forall|lease: Seq<char>, id: Seq<char>|
            lease != fresh ==> (#[trigger] subscribers::awaited(after.pending, id, lease)
                <==> subscribers::awaited(before.pending, id, lease)),
        after.db == before.db,
        after.live == before.live,
{
}

/// A lease under which a message was sent is kept, and one under which it could
/// not be sent is given up. Either way the next stream is tried.
pub proof fn law_a_lease_is_kept_where_the_message_was_sent(
    l: LoopView,
    before: Board,
    after: Board,
    d: DeliveryView,
    lease: Seq<char>,
    ok: bool,
    now: UtcTime,
    fresh: Seq<char>,
    next: PhaseView,
    action: ActionView,
)
    requires
        stepped(
            l,
            before,
            after,
            PhaseView::Sent(d, lease),
            Event::Sent { ok },
            now,
            fresh,
            next,
            action,
        ),
    ensures
        action == ActionView::Continue,
        next matches PhaseView::Sending(e) && e.message == d.message && e.to == d.to && e.tried
            == d.tried && e.ephemeral == d.ephemeral && (if ok {
            e.leases.len() == d.leases.len() + 1 && e.leases.last() == lease && e.leases.drop_last()
                == d.leases
        } else {
            e.leases == d.leases
        }),
        ok ==> after == before,
        !ok ==> !after.pending.contains_key(lease),
        forall|other: Seq<char>, id: Seq<char>|
            other != lease ==> (#[trigger] subscribers::awaited(after.pending, id, other)
                <==> subscribers::awaited(before.pending, id, other)),
        after.db == before.db,
        after.live == before.live,
{
}

/// When every stream was tried, an ephemeral message is delivered where a
/// stream took it and dropped where none did. A persistent one fails where none
/// took it. Else the first acknowledgement is waited for, as long as the message
/// is held, and nothing counts against it yet.
pub proof fn law_the_end_of_sending_decides(
    l: LoopView,
    before: Board,
    after: Board,
    d: DeliveryView,
    closing: bool,
    now: UtcTime,
    fresh: Seq<char>,
    next: PhaseView,
    action: ActionView,
)
    requires
        stepped(
            l,
            before,
            after,
            PhaseView::Sending(d),
            Event::Go { closing },
            now,
            fresh,
            next,
            action,
        ),
        d.tried == d.to.len(),
    ensures
        d.ephemeral && d.leases.len() > 0 ==> next == PhaseView::Turn && exists|ok: bool| #[trigger]
            db::delivered_once(before.db, after.db, d.message.id, d.message.lease, ok, now),
        d.ephemeral && d.leases.len() == 0 ==> next == PhaseView::Turn && exists|ok: bool| #[trigger]
            queue::claimed_dropped(
                before.db,
                after.db,
                d.message.id,
                d.message.lease,
                "no live subscriber accepted the message"@,
                clock::time_text(now),
                ok,
            ),
        !d.ephemeral && d.leases.len() == 0 ==> next == PhaseView::Turn && exists|ok: bool|
            #[trigger]
            queue::attempt_failed(
                before.db,
                after.db,
                d.message.id,
                d.message.lease,
                "no live subscriber accepted the message"@,
                l.max_attempts,
                now,
                ok,
            ),
        !d.ephemeral && d.leases.len() > 0 ==> after == before && action == (ActionView::Await {
            lease: d.leases[0],
            secs: l.visibility,
        }) && (next matches PhaseView::Waiting(e, v) && e == d && v.heard == 0 && v.all_ok
            && v.last_error == "ack timeout or subscriber gone"@),
        next == PhaseView::Turn ==> action == ActionView::Continue,
{
}

/// An answer counts once. It speaks for the message only where the subscriber
/// took it. The reason it gives is the subscriber's own words, or the word nack
/// where it refused without any; where nothing was heard the reason stays.
pub proof fn law_an_answer_counts(v: VerdictView, ack: Ack)
    ensures
        heard(v, ack).heard == v.heard + 1,
        heard(v, ack).all_ok <==> v.all_ok && (ack matches Ack::Decided(decision)
            && decision.success),
        ack matches Ack::Decided(decision) ==> {
            &&& decision.success ==> heard(v, ack).last_error == v.last_error
            &&& !decision.success && decision.error@.len() > 0 ==> heard(v, ack).last_error
                == decision.error@
            &&& !decision.success && decision.error@.len() == 0 ==> heard(v, ack).last_error
                == "nack"@
        },
        ack == Ack::Lost ==> heard(v, ack).last_error == v.last_error,
        ack == Ack::Stopping ==> heard(v, ack).last_error == "broker shutting down"@,
{
}

/// Acknowledgements are waited for one after the other. The last one settles the
/// message: it is delivered where every subscriber took it, and else it fails
/// for the reason that was heard.
pub proof fn law_the_last_answer_settles_the_message(
    l: LoopView,
    before: Board,
    after: Board,
    d: DeliveryView,
    v: VerdictView,
    ack: Ack,
    now: UtcTime,
    fresh: Seq<char>,
    next: PhaseView,
    action: ActionView,
)
    requires
        stepped(
            l,
            before,
            after,
            PhaseView::Waiting(d, v),
            Event::Acked { ack, stopping: false },
            now,
            fresh,
            next,
            action,
        ),
        0 <= v.heard < d.leases.len(),
    ensures
        v.heard + 1 < d.leases.len() ==> after == before && action == (ActionView::Await {
            lease: d.leases[v.heard + 1],
            secs: l.visibility,
        }) && next == PhaseView::Waiting(d, heard(v, ack)),
        v.heard + 1 == d.leases.len() ==> next == PhaseView::Turn && action == ActionView::Continue
            && after.live == before.live,
        v.heard + 1 == d.leases.len() && v.all_ok && (ack matches Ack::Decided(decision)
            && decision.success) ==> exists|ok: bool| #[trigger]
            db::delivered_once(before.db, after.db, d.message.id, d.message.lease, ok, now),
        v.heard + 1 == d.leases.len() && !(v.all_ok && (ack matches Ack::Decided(decision)
            && decision.success)) ==> exists|ok: bool| #[trigger]
            queue::attempt_failed(
                before.db,
                after.db,
                d.message.id,
                d.message.lease,
                heard(v, ack).last_error,
                l.max_attempts,
                now,
                ok,
            ),
{
}

/// A subscription that ends is not live any more, and every other one stays.
/// What waits on its topic is dropped only where the topic has no wildcard, is
/// ephemeral, and nobody else receives it; else every message stays as it was.
pub proof fn law_the_last_subscriber_takes_ephemeral_messages_along(
    l: LoopView,
    before: Board,
    after: Board,
    phase: PhaseView,
    event: Event,
    now: UtcTime,
    fresh: Seq<char>,
    action: ActionView,
)
    requires
        stepped(l, before, after, phase, event, now, fresh, PhaseView::Over, action),
        phase != PhaseView::Over,
        forall|t: Seq<char>| #[trigger]
            before.live.contains_key(t) ==> before.live[t].dom().finite(),
    ensures
        action == ActionView::Stop,
        !subscribers::subscribed(after.live, l.topic, l.session),
        forall|t: Seq<char>, s: Seq<char>|
            (t, s) != (l.topic, l.session) ==> (#[trigger] subscribers::subscribed(after.live, t, s)
                <==> subscribers::subscribed(before.live, t, s)),
        ({
            let alone = !l.topic.contains('+') && !l.topic.contains('#') && !subscribers::covered(
                after.live,
                l.topic,
            ) && db::config_of(before.db, l.topic).persistence == PersistenceMode::Ephemeral;
            &&& !alone ==> after.db.rows() == before.db.rows()
            &&& alone ==> exists|mid: Database, n: int|
                mid.rows() == before.db.rows() && #[trigger] queue::pending_dropped(
                    mid,
                    after.db,
                    l.topic,
                    clock::time_text(now),
                    n,
                )
        }),
{
    subscribers::law_a_removed_subscription_is_gone(before.live, l.topic, l.session);
}

/// A step that does not fit the phase changes nothing.
pub proof fn law_an_unexpected_event_changes_nothing(
    l: LoopView,
    before: Board,
    after: Board,
    phase: PhaseView,
    event: Event,
    now: UtcTime,
    fresh: Seq<char>,
    next: PhaseView,
    action: ActionView,
)
    requires
        stepped(l, before, after, phase, event, now, fresh, next, action),
        phase == PhaseView::Over || (event is Go && (phase is Sent || phase is Waiting)) || (
        event is Sent && !(phase is Sent)) || (event is Acked && !(phase is Waiting)),
    ensures
        after == before,
        next == phase,
        phase == PhaseView::Over ==> action == ActionView::Stop,
        phase != PhaseView::Over ==> action == ActionView::Continue,
{
}

/// A live subscription is listed under its own names, from the time on at which
/// it began.
pub proof fn law_a_live_subscription_is_listed_as_it_is(l: LoopView, now: Seq<char>)
    ensures
        live_entry(l, now).tx == l.tx,
        live_entry(l, now).info.id == l.session,
        live_entry(l, now).info.topic == l.topic,
        live_entry(l, now).info.peer == l.peer,
        live_entry(l, now).info.connected_at == now,
        live_entry(l, now).info.protocol == l.protocol,
        live_entry(l, now).info.version == l.version,
        live_entry(l, now).info.host == l.host,
{
}

/// A subscription with nothing to hand out marks its consumer as seen. One
/// without a consumer, or one whose fetch failed, leaves the consumers alone.
pub proof fn law_an_idle_subscription_marks_its_consumer(
    l: LoopView,
    before: Board,
    after: Board,
    now: UtcTime,
    fresh: Seq<char>,
    next: PhaseView,
    action: ActionView,
)
    requires
        stepped(
            l,
            before,
            after,
            PhaseView::Turn,
            Event::Go { closing: false },
            now,
            fresh,
            next,
            action,
        ),
    ensures
        exists|mid: Database, got: Result<Option<ClaimedMessage>, BadAttributes>| #[trigger]
            queue::claimed_for_filter(before.db, mid, l.topic, now, l.visibility, fresh, got) && {
                &&& (got matches Ok(None)) && l.consumer_id.len() > 0 ==> exists|known: bool|
                    #[trigger]
                    snapshot::consumer_touched(
                        mid,
                        after.db,
                        l.consumer_id,
                        clock::time_text(now),
                        known,
                    )
                &&& (got matches Ok(None)) && l.consumer_id.len() == 0 ==> after.db == mid
                &&& got is Err ==> after.db == mid
                &&& (got matches Ok(Some(_))) <==> next is Sending
            },
{
    let (mid, got) = choose|mid: Database, got: Result<Option<ClaimedMessage>, BadAttributes>|
        #[trigger] queue::claimed_for_filter(before.db, mid, l.topic, now, l.visibility, fresh, got)
            && fetched(l, Board { db: mid, ..before }, after, got, now, next, action);
    assert(queue::claimed_for_filter(before.db, mid, l.topic, now, l.visibility, fresh, got));
}

/// Where a message is settled, only its own leases are given up.
pub proof fn law_other_leases_stay(
    l: LoopView,
    before: Board,
    after: Board,
    phase: PhaseView,
    d: DeliveryView,
    event: Event,
    now: UtcTime,
    fresh: Seq<char>,
    next: PhaseView,
    action: ActionView,
    other: Seq<char>,
)
    requires
        stepped(l, before, after, phase, event, now, fresh, next, action),
        in_hand(phase) == Some(d),
        !d.leases.contains(other),
        other != fresh,
        phase matches PhaseView::Sent(_, lease) ==> other != lease,
    ensures
        after.pending.contains_key(other) == before.pending.contains_key(other),
{
    lemma_cancelled(before.pending, d.leases);
}

} // verus!
