//! The calls that clients make, before and after the wire.
use vstd::prelude::*;
use vstd::string::*;

use crate::auth;
use crate::clock;
use crate::clock::UtcTime;
use crate::config::Config;
use crate::consumers;
use crate::db;
use crate::db::Database;
use crate::delivery;
use crate::delivery::{Ingested, Intake, Publication, PROTOCOL_GRPC};
use crate::json;
use crate::json::Attributes;
use crate::messages::StoreFault;
use crate::model;
use crate::model::{DeliveryMode, PersistenceMode, TopicConfig};
use crate::shard;
use crate::snapshot;
use crate::subscribers;
use crate::subscribers::{AckDecision, InflightAcks, Live, StreamSender, TopicSubscribers};
use crate::subscription::{LoopView, SubscribeLoop};
use crate::text;

verus! {

/// What a call lacks.
#[derive(Debug, Clone, Copy, PartialEq, Eq, Structural)]
pub enum CallFault {
    Topic,
    Payload,
    Consumer,
    Topics,
    Delivery,
    Persistence,
    Lease,
}

impl CallFault {
    /// What the caller is told.
    pub fn message(&self) -> (r: &'static str)
        ensures
            r@ == (match *self {
                CallFault::Topic => "topic is required"@,
                CallFault::Payload => "payload is required"@,
                CallFault::Consumer => "consumer_id is required"@,
                CallFault::Topics => "topics is required"@,
                CallFault::Delivery => "delivery must be single or broadcast"@,
                CallFault::Persistence => "persistence must be persistent or ephemeral"@,
                CallFault::Lease => "message_id and lease are required"@,
            }),
    {
        match self {
            CallFault::Topic => "topic is required",
            CallFault::Payload => "payload is required",
            CallFault::Consumer => "consumer_id is required",
            CallFault::Topics => "topics is required",
            CallFault::Delivery => "delivery must be single or broadcast",
            CallFault::Persistence => "persistence must be persistent or ephemeral",
            CallFault::Lease => "message_id and lease are required",
        }
    }
}

/// The topic of a call, without the white space around it.
pub fn require_topic(topic: &str) -> (r: Result<&str, CallFault>)
    ensures
        match r {
            Ok(name) => name@ == text::trimmed(topic@) && name@.len() > 0,
            Err(fault) => text::trimmed(topic@).len() == 0 && fault == CallFault::Topic,
        },
{
    let name: &str = text::trim(topic);
    if name.is_empty() {
        Err(CallFault::Topic)
    } else {
        Ok(name)
    }
}

// ----------------------------------------------------------------- publishing

/// A message that a publisher sends.
pub struct AcceptRequest {
    pub idempotency_key: String,
    pub topic: String,
    pub payload: Vec<u8>,
    pub attributes: Attributes,
}

/// Why a message was not accepted.
#[derive(Debug, Clone, Copy, PartialEq, Eq, Structural)]
pub enum AcceptFault {
    /// The publisher may go on with other messages.
    Call(CallFault),
    /// The message could not be stored; the stream of messages ends.
    Store(StoreFault),
}

/// The first thing that a message lacks.
pub open spec fn accept_fault(topic: Seq<char>, payload: Seq<u8>) -> Option<CallFault> {
    if text::trimmed(topic).len() == 0 {
        Some(CallFault::Topic)
    } else if payload.len() == 0 {
        Some(CallFault::Payload)
    } else {
        None
    }
}

/// A message of a publisher was accepted, or not.
pub open spec fn accepted(
    before: Database,
    after: Database,
    live: Live,
    request: AcceptRequest,
    now: UtcTime,
    fresh: Seq<char>,
    r: Result<Intake, AcceptFault>,
) -> bool {
    let message = Publication {
        topic: text::trimmed(request.topic@),
        payload: request.payload@,
        attributes: request.attributes@,
        idempotency_key: Some(request.idempotency_key@),
    };
    match accept_fault(request.topic@, request.payload@) {
        Some(fault) => after == before && r == Err::<Intake, AcceptFault>(AcceptFault::Call(fault)),
        None => match r {
            Ok(intake) => delivery::taken_in(before, after, live, message, now, fresh, Ok(intake)),
            Err(AcceptFault::Store(fault)) => delivery::taken_in(
                before,
                after,
                live,
                message,
                now,
                fresh,
                Err(fault),
            ),
            Err(AcceptFault::Call(_)) => false,
        },
    }
}

/// Accepts a message of a publisher at the time `now`, under the identifier
/// `fresh`.
pub fn accept_message_at(
    database: &mut Database,
    live: &TopicSubscribers,
    request: AcceptRequest,
    now: UtcTime,
    fresh: String,
) -> (r: Result<Intake, AcceptFault>)
    requires
        old(database).wf(),
        now.valid(),
    ensures
        final(database).wf(),
        accepted(*old(database), *final(database), live@, request, now, fresh@, r),
{
    let name: &str = match require_topic(request.topic.as_str()) {
        Ok(name) => name,
        Err(fault) => {
            return Err(AcceptFault::Call(fault));
        },
    };
    if request.payload.len() == 0 {
        return Err(AcceptFault::Call(CallFault::Payload));
    }
    match delivery::ingest_at(
        database,
        live,
        name,
        &request.payload,
        request.attributes,
        Some(request.idempotency_key.as_str()),
        now,
        fresh,
    ) {
        Ok(intake) => Ok(intake),
        Err(fault) => Err(AcceptFault::Store(fault)),
    }
}

/// Accepts a message of a publisher now.
pub fn accept_message(
    database: &mut Database,
    live: &TopicSubscribers,
    request: AcceptRequest,
) -> (r: Result<Intake, AcceptFault>)
    requires
        old(database).wf(),
    ensures
        final(database).wf(),
        exists|now: UtcTime, fresh: Seq<char>|
            now.valid() && shard::is_uuid_text(fresh) && #[trigger] accepted(
                *old(database),
                *final(database),
                live@,
                request,
                now,
                fresh,
                r,
            ),
{
    accept_message_at(database, live, request, clock::now(), shard::random_id())
}

/// What a publisher is told of a message: its identifier, and whether it was
/// there before.
pub fn accept_reply(done: Ingested) -> (r: (String, bool))
    ensures
        match done@ {
            delivery::IngestedView::Queued { message_id, duplicate } => r.0@ == message_id && r.1
                == duplicate,
            delivery::IngestedView::Dropped { message_id } => r.0@ == message_id && !r.1,
        },
{
    match done {
        Ingested::Queued { message_id, duplicate } => (message_id, duplicate),
        Ingested::Dropped { message_id } => (message_id, false),
    }
}

// ------------------------------------------------------------------ consumers

/// A consumer that registers.
pub struct RegisterRequest {
    pub consumer_id: String,
    pub topic: String,
    pub name: String,
    pub attributes: Attributes,
}

/// A consumer was registered, or not.
pub open spec fn registration(
    before: Database,
    after: Database,
    request: RegisterRequest,
    version: Seq<char>,
    host: Seq<char>,
    fresh: Seq<char>,
    now: Seq<char>,
    r: Result<String, CallFault>,
) -> bool {
    let attributes = auth::noted(
        auth::noted(request.attributes@, "version"@, version),
        "host"@,
        host,
    );
    match r {
        Err(fault) => text::trimmed(request.topic@).len() == 0 && fault == CallFault::Topic && after
            == before,
        Ok(id) => {
            &&& text::trimmed(request.topic@).len() > 0
            &&& id@ == snapshot::consumer_name(Some(request.consumer_id@), fresh)
            &&& snapshot::consumer_registered(
                before,
                after,
                id@,
                consumers::RegistrationView {
                    topic: text::trimmed(request.topic@),
                    name: text::trimmed(request.name@),
                    attributes: json::object_text(attributes),
                },
                now,
            )
        },
    }
}

/// Registers a consumer at the time `now`, with the version and the host that
/// the client told.
pub fn register_at(
    database: &mut Database,
    request: RegisterRequest,
    version: String,
    host: String,
    fresh: &str,
    now: &str,
) -> (r: Result<String, CallFault>)
    ensures
        registration(
            *old(database),
            *final(database),
            request,
            version@,
            host@,
            fresh@,
            now@,
            r,
        ),
{
    let topic: &str = match require_topic(request.topic.as_str()) {
        Ok(topic) => topic,
        Err(fault) => {
            return Err(fault);
        },
    };
    let mut attributes: Attributes = request.attributes;
    auth::note_identity(&mut attributes, version, host);
    let id: String = database.register_consumer_at(
        Some(request.consumer_id.as_str()),
        topic,
        text::trim(request.name.as_str()),
        &attributes,
        fresh,
        now,
    );
    Ok(id)
}

/// Registers a consumer now.
pub fn register(
    database: &mut Database,
    request: RegisterRequest,
    version: String,
    host: String,
) -> (r: Result<String, CallFault>)
    ensures
        exists|now: UtcTime, fresh: Seq<char>|
            now.valid() && shard::is_uuid_text(fresh) && #[trigger] registration(
                *old(database),
                *final(database),
                request,
                version@,
                host@,
                fresh,
                clock::time_text(now),
                r,
            ),
{
    let now: UtcTime = clock::now();
    let at: String = clock::text_of(now);
    let fresh: String = shard::random_id();
    let r: Result<String, CallFault> = register_at(
        database,
        request,
        version,
        host,
        fresh.as_str(),
        at.as_str(),
    );
    proof {
        assert(registration(
            *old(database),
            *database,
            request,
            version@,
            host@,
            fresh@,
            clock::time_text(now),
            r,
        ));
    }
    r
}

/// Removes a consumer; says whether it was known.
pub fn unregister(database: &mut Database, consumer_id: &str) -> (r: Result<bool, CallFault>)
    ensures
        match r {
            Err(fault) => text::trimmed(consumer_id@).len() == 0 && fault == CallFault::Consumer
                && *final(database) == *old(database),
            Ok(known) => {
                &&& text::trimmed(consumer_id@).len() > 0
                &&& final(database).consumers@ == consumers::consumers_kept(
                    old(database).consumers@,
                    consumers::not_named(text::trimmed(consumer_id@)),
                )
                &&& known == (final(database).consumers@.len() < old(database).consumers@.len())
                &&& snapshot::consumers_only(*old(database), *final(database))
            },
        },
{
    let id: &str = text::trim(consumer_id);
    if id.is_empty() {
        return Err(CallFault::Consumer);
    }
    Ok(database.unregister_consumer(id))
}

// ---------------------------------------------------------------- subscribing

/// What a subscriber told, or what its consumer has as an attribute.
pub open spec fn told_or_stored(
    told: Seq<char>,
    consumers_of: Seq<consumers::ConsumerView>,
    id: Seq<char>,
    key: Seq<char>,
) -> Seq<char> {
    if told.len() > 0 || id.len() == 0 {
        told
    } else {
        match consumers::attribute_in(consumers_of, id, key) {
            Some(value) => value,
            None => told,
        }
    }
}

/// A gRPC subscription, or why there is none.
pub open spec fn subscribed(
    before: Database,
    after: Database,
    config: Config,
    topic: Seq<char>,
    consumer_id: Seq<char>,
    version: Seq<char>,
    host: Seq<char>,
    peer: Seq<char>,
    tx: StreamSender,
    fresh: Seq<char>,
    now: Seq<char>,
    r: Result<SubscribeLoop, CallFault>,
) -> bool {
    let id = text::trimmed(consumer_id);
    match r {
        Err(fault) => text::trimmed(topic).len() == 0 && fault == CallFault::Topic && after
            == before,
        Ok(args) => {
            &&& text::trimmed(topic).len() > 0
            &&& if id.len() == 0 {
                after == before
            } else {
                exists|known: bool| #[trigger]
                    snapshot::consumer_touched(before, after, id, now, known)
            }
            &&& args@ == (LoopView {
                topic: text::trimmed(topic),
                session: if id.len() == 0 {
                    fresh
                } else {
                    id
                },
                consumer_id: id,
                tx,
                peer,
                protocol: PROTOCOL_GRPC@,
                version: told_or_stored(version, after.consumers@, id, "version"@),
                host: told_or_stored(host, after.consumers@, id, "host"@),
                visibility: config.visibility(),
                poll_ms: config.worker_poll_ms,
                max_attempts: config.max_delivery_attempts,
            })
        },
    }
}

fn tell_or_look_up(told: String, database: &Database, id: &str, key: &str) -> (r: String)
    ensures
        r@ == told_or_stored(told@, database.consumers@, id@, key@),
{
    if !told.as_str().is_empty() || id.is_empty() {
        return told;
    }
    match database.consumer_attribute(id, key) {
        Some(value) => value,
        None => told,
    }
}

/// Makes a gRPC subscription at the time `now`. A subscriber without a consumer
/// gets the session `fresh`.
pub fn subscribe_at(
    database: &mut Database,
    config: &Config,
    topic: &str,
    consumer_id: &str,
    version: String,
    host: String,
    peer: String,
    tx: StreamSender,
    fresh: String,
    now: &str,
) -> (r: Result<SubscribeLoop, CallFault>)
    ensures
        subscribed(
            *old(database),
            *final(database),
            *config,
            topic@,
            consumer_id@,
            version@,
            host@,
            peer@,
            tx,
            fresh@,
            now@,
            r,
        ),
        old(database).wf() ==> final(database).wf(),
{
    let name: &str = match require_topic(topic) {
        Ok(name) => name,
        Err(fault) => {
            return Err(fault);
        },
    };
    let id: &str = text::trim(consumer_id);
    if !id.is_empty() {
        let known: bool = database.touch_consumer_at(id, now);
        proof {
            assert(snapshot::consumer_touched(*old(database), *database, id@, now@, known));
        }
    }
    let version: String = tell_or_look_up(version, database, id, "version");
    let host: String = tell_or_look_up(host, database, id, "host");
    let session: String = if id.is_empty() {
        fresh
    } else {
        id.to_string()
    };
    Ok(
        SubscribeLoop::new(
            config,
            name.to_string(),
            session,
            id.to_string(),
            tx,
            peer,
            PROTOCOL_GRPC,
            version,
            host,
        ),
    )
}

/// Makes a gRPC subscription now.
pub fn subscribe(
    database: &mut Database,
    config: &Config,
    topic: &str,
    consumer_id: &str,
    version: String,
    host: String,
    peer: String,
    tx: StreamSender,
) -> (r: Result<SubscribeLoop, CallFault>)
    ensures
        old(database).wf() ==> final(database).wf(),
        exists|now: UtcTime, fresh: Seq<char>|
            now.valid() && shard::is_uuid_text(fresh) && #[trigger] subscribed(
                *old(database),
                *final(database),
                *config,
                topic@,
                consumer_id@,
                version@,
                host@,
                peer@,
                tx,
                fresh,
                clock::time_text(now),
                r,
            ),
{
    let now: UtcTime = clock::now();
    let at: String = clock::text_of(now);
    let fresh: String = shard::random_id();
    let ghost name = fresh@;
    let r: Result<SubscribeLoop, CallFault> = subscribe_at(
        database,
        config,
        topic,
        consumer_id,
        version,
        host,
        peer,
        tx,
        fresh,
        at.as_str(),
    );
    proof {
        assert(subscribed(
            *old(database),
            *database,
            *config,
            topic@,
            consumer_id@,
            version@,
            host@,
            peer@,
            tx,
            name,
            clock::time_text(now),
            r,
        ));
    }
    r
}

// --------------------------------------------------------------------- topics

/// The settings of a topic as words.
pub struct TopicConfigBody {
    pub topic: String,
    pub delivery: String,
    pub persistence: String,
}

pub struct BodyView {
    pub topic: Seq<char>,
    pub delivery: Seq<char>,
    pub persistence: Seq<char>,
}

impl View for TopicConfigBody {
    type V = BodyView;

    open spec fn view(&self) -> BodyView {
        BodyView {
            topic: self.topic@,
            delivery: self.delivery@,
            persistence: self.persistence@,
        }
    }
}

pub open spec fn body_views(list: Seq<TopicConfigBody>) -> Seq<BodyView> {
    list.map_values(|b: TopicConfigBody| b@)
}

/// The settings that the words stand for, or what is wrong with them.
pub open spec fn config_asked(body: BodyView) -> Result<model::TopicConfigView, CallFault> {
    if text::trimmed(body.topic).len() == 0 {
        Err(CallFault::Topic)
    } else {
        match DeliveryMode::of(body.delivery) {
            None => Err(CallFault::Delivery),
            Some(delivery) => match PersistenceMode::of(body.persistence) {
                None => Err(CallFault::Persistence),
                Some(persistence) => Ok(
                    model::TopicConfigView {
                        topic: text::trimmed(body.topic),
                        delivery,
                        persistence,
                    },
                ),
            },
        }
    }
}

/// The first fault in a list of settings.
pub open spec fn first_fault(list: Seq<BodyView>) -> Option<CallFault>
    decreases list.len(),
{
    if list.len() == 0 {
        None
    } else {
        match first_fault(list.drop_last()) {
            Some(fault) => Some(fault),
            None => match config_asked(list.last()) {
                Err(fault) => Some(fault),
                Ok(_) => None,
            },
        }
    }
}

/// What is wrong with a request to configure topics.
pub open spec fn configure_fault(list: Seq<BodyView>) -> Option<CallFault> {
    if list.len() == 0 {
        Some(CallFault::Topics)
    } else {
        first_fault(list)
    }
}

pub open spec fn configs_asked(list: Seq<BodyView>) -> Seq<model::TopicConfigView> {
    list.map_values(|b: BodyView| config_asked(b)->Ok_0)
}

fn read_config(body: &TopicConfigBody) -> (r: Result<TopicConfig, CallFault>)
    ensures
        match r {
            Ok(config) => config_asked(body@) == Ok::<model::TopicConfigView, CallFault>(config@),
            Err(fault) => config_asked(body@) == Err::<model::TopicConfigView, CallFault>(fault),
        },
{
    let topic: &str = match require_topic(body.topic.as_str()) {
        Ok(topic) => topic,
        Err(fault) => {
            return Err(fault);
        },
    };
    let delivery: DeliveryMode = match DeliveryMode::parse(body.delivery.as_str()) {
        Some(delivery) => delivery,
        None => {
            return Err(CallFault::Delivery);
        },
    };
    let persistence: PersistenceMode = match PersistenceMode::parse(body.persistence.as_str()) {
        Some(persistence) => persistence,
        None => {
            return Err(CallFault::Persistence);
        },
    };
    Ok(TopicConfig { topic: topic.to_string(), delivery, persistence })
}

proof fn lemma_first_fault(list: Seq<BodyView>, i: int)
    requires
        0 <= i < list.len(),
        first_fault(list.take(i)) is None,
        config_asked(list[i]) is Err,
    ensures
        first_fault(list) == Some(config_asked(list[i])->Err_0),
    decreases list.len(),
{
    if i == list.len() - 1 {
        assert(list.drop_last() =~= list.take(i));
    } else {
        assert(list.drop_last().take(i) =~= list.take(i));
        lemma_first_fault(list.drop_last(), i);
    }
}

/// Reads the settings that a request asks for.
pub fn read_configs(bodies: &Vec<TopicConfigBody>) -> (r: Result<Vec<TopicConfig>, CallFault>)
    ensures
        match r {
            Ok(configs) => configure_fault(body_views(bodies@)) is None && db::config_views(
                configs@,
            ) == configs_asked(body_views(bodies@)),
            Err(fault) => configure_fault(body_views(bodies@)) == Some(fault),
        },
{
    let ghost all = body_views(bodies@);
    if bodies.len() == 0 {
        return Err(CallFault::Topics);
    }
    let mut configs: Vec<TopicConfig> = Vec::new();
    let mut i: usize = 0;
    while i < bodies.len()
        invariant
            i <= bodies@.len(),
            bodies@.len() > 0,
            all == body_views(bodies@),
            first_fault(all.take(i as int)) is None,
            configs@.len() == i,
            forall|k: int| 0 <= k < i ==> (#[trigger] configs@[k])@ == configs_asked(all)[k],
        decreases bodies.len() - i,
    {
        proof {
            assert(all.take(i + 1).drop_last() =~= all.take(i as int));
            assert(all.take(i + 1).last() == all[i as int]);
            assert(all[i as int] == bodies@[i as int]@);
        }
        match read_config(&bodies[i]) {
            Ok(config) => configs.push(config),
            Err(fault) => {
                proof {
                    lemma_first_fault(all, i as int);
                }
                return Err(fault);
            },
        }
        i = i + 1;
    }
    proof {
        assert(all.take(all.len() as int) =~= all);
        assert(db::config_views(configs@) =~= configs_asked(all));
    }
    Ok(configs)
}

/// Configures topics at the time `now`. Gives the settings of all topics.
pub fn configure_topics_at(
    database: &mut Database,
    bodies: &Vec<TopicConfigBody>,
    now: &str,
) -> (r: Result<Vec<TopicConfigBody>, CallFault>)
    ensures
        match r {
            Ok(list) => configure_fault(body_views(bodies@)) is None && exists|
                stored: Seq<model::TopicConfigView>,
            | #[trigger]
                db::topics_configured(
                    *old(database),
                    *final(database),
                    configs_asked(body_views(bodies@)),
                    stored,
                    now@,
                ) && body_views(list@) == worded(stored),
            Err(fault) => configure_fault(body_views(bodies@)) == Some(fault) && *final(database)
                == *old(database),
        },
{
    match read_configs(bodies) {
        Err(fault) => Err(fault),
        Ok(configs) => {
            let stored: Vec<TopicConfig> = database.configure_topics_at(&configs, now);
            Ok(to_bodies(stored))
        },
    }
}

/// Configures topics now. Gives the settings of all topics.
pub fn configure_topics(database: &mut Database, bodies: &Vec<TopicConfigBody>) -> (r: Result<
    Vec<TopicConfigBody>,
    CallFault,
>)
    ensures
        match r {
            Ok(list) => configure_fault(body_views(bodies@)) is None && exists|
                stored: Seq<model::TopicConfigView>,
                now: UtcTime,
            |
                now.valid() && #[trigger] db::topics_configured(
                    *old(database),
                    *final(database),
                    configs_asked(body_views(bodies@)),
                    stored,
                    clock::time_text(now),
                ) && body_views(list@) == worded(stored),
            Err(fault) => configure_fault(body_views(bodies@)) == Some(fault) && *final(database)
                == *old(database),
        },
{
    let now: UtcTime = clock::now();
    let at: String = clock::text_of(now);
    configure_topics_at(database, bodies, at.as_str())
}

/// Settings as words.
pub open spec fn worded(list: Seq<model::TopicConfigView>) -> Seq<BodyView> {
    list.map_values(
        |c: model::TopicConfigView|
            BodyView {
                topic: c.topic,
                delivery: c.delivery.name(),
                persistence: c.persistence.name(),
            },
    )
}

/// Settings as words.
pub fn to_body(config: TopicConfig) -> (r: TopicConfigBody)
    ensures
        r@ == (BodyView {
            topic: config@.topic,
            delivery: config@.delivery.name(),
            persistence: config@.persistence.name(),
        }),
{
    TopicConfigBody {
        topic: config.topic,
        delivery: config.delivery.as_str().to_string(),
        persistence: config.persistence.as_str().to_string(),
    }
}

/// Settings as words.
pub fn to_bodies(configs: Vec<TopicConfig>) -> (r: Vec<TopicConfigBody>)
    ensures
        body_views(r@) == worded(db::config_views(configs@)),
{
    let ghost source = configs@;
    let mut out: Vec<TopicConfigBody> = Vec::new();
    for config in it: configs
        invariant
            it.seq() == source,
            out@.len() == it.index(),
            forall|k: int|
                0 <= k < it.index() ==> (#[trigger] out@[k])@ == worded(db::config_views(source))[k],
    {
        out.push(to_body(config));
    }
    proof {
        assert(body_views(out@) =~= worded(db::config_views(source)));
    }
    out
}

// ------------------------------------------------------------ acknowledgements

/// Takes an acknowledgement. Whoever waits under its lease is to be told the
/// decision.
pub fn ack_message(
    inflight: &mut InflightAcks,
    message_id: &str,
    lease: &str,
    success: bool,
    error: String,
) -> (r: Result<Option<AckDecision>, CallFault>)
    ensures
        match r {
            Err(fault) => (message_id@.len() == 0 || lease@.len() == 0) && fault == CallFault::Lease
                && *final(inflight) == *old(inflight),
            Ok(decision) => {
                &&& message_id@.len() > 0 && lease@.len() > 0
                &&& final(inflight)@ == subscribers::acknowledged(
                    old(inflight)@,
                    message_id@,
                    lease@,
                )
                &&& match decision {
                    Some(d) => subscribers::awaited(old(inflight)@, message_id@, lease@)
                        && d.success == success && d.error@ == error@,
                    None => !subscribers::awaited(old(inflight)@, message_id@, lease@),
                }
            },
        },
{
    if message_id.is_empty() || lease.is_empty() {
        return Err(CallFault::Lease);
    }
    Ok(inflight.complete(message_id, lease, success, error))
}

// -------------------------------------------------------------------- laws

/// A publisher's message is refused only for what it lacks or for the store: a
/// message with a topic and a payload is never told that one of them is missing.
pub proof fn law_a_complete_message_is_taken(
    before: Database,
    after: Database,
    live: Live,
    request: AcceptRequest,
    now: UtcTime,
    fresh: Seq<char>,
    r: Result<Intake, AcceptFault>,
)
    requires
        accepted(before, after, live, request, now, fresh, r),
        text::trimmed(request.topic@).len() > 0,
        request.payload@.len() > 0,
    ensures
        r is Ok || r matches Err(AcceptFault::Store(_)),
{
}

/// A refused request changes nothing.
pub proof fn law_a_refused_call_changes_nothing(
    before: Database,
    after: Database,
    live: Live,
    request: AcceptRequest,
    now: UtcTime,
    fresh: Seq<char>,
    fault: CallFault,
)
    requires
        accepted(before, after, live, request, now, fresh, Err(AcceptFault::Call(fault))),
    ensures
        after == before,
{
}

/// A publisher's message is refused for want of a topic, or else of a payload, and
/// for nothing else but the store. What is taken is the message as it was sent,
/// under its topic without white space around it and with its idempotency key.
pub proof fn law_a_message_is_taken_as_it_was_sent(
    before: Database,
    after: Database,
    live: Live,
    request: AcceptRequest,
    now: UtcTime,
    fresh: Seq<char>,
    r: Result<Intake, AcceptFault>,
)
    requires
        accepted(before, after, live, request, now, fresh, r),
    ensures
        text::blank(request.topic@) ==> r == Err::<Intake, AcceptFault>(
            AcceptFault::Call(CallFault::Topic),
        ) && after == before,
        !text::blank(request.topic@) && request.payload@.len() == 0 ==> r == Err::<
            Intake,
            AcceptFault,
        >(AcceptFault::Call(CallFault::Payload)) && after == before,
        r matches Ok(intake) ==> exists|message: Publication|
            {
                &&& #[trigger] delivery::taken_in(
                    before,
                    after,
                    live,
                    message,
                    now,
                    fresh,
                    Ok(intake),
                )
                &&& text::tight(request.topic@) ==> message.topic == request.topic@
                &&& message.payload == request.payload@
                &&& message.attributes == request.attributes@
                &&& message.idempotency_key == Some(request.idempotency_key@)
            },
{
    text::law_tight_texts_stay(request.topic@);
    if let Ok(intake) = r {
        let message = Publication {
            topic: text::trimmed(request.topic@),
            payload: request.payload@,
            attributes: request.attributes@,
            idempotency_key: Some(request.idempotency_key@),
        };
        assert(delivery::taken_in(before, after, live, message, now, fresh, Ok(intake)));
    }
}

/// A consumer registers under its own identifier, or under a fresh one where it
/// has none, for a topic that is not blank; its attributes are kept, with the
/// version and the host that it told.
pub proof fn law_a_consumer_is_registered_as_it_asked(
    before: Database,
    after: Database,
    request: RegisterRequest,
    version: Seq<char>,
    host: Seq<char>,
    fresh: Seq<char>,
    now: Seq<char>,
    r: Result<String, CallFault>,
)
    requires
        registration(before, after, request, version, host, fresh, now, r),
    ensures
        text::blank(request.topic@) <==> r is Err,
        r is Err ==> r == Err::<String, CallFault>(CallFault::Topic) && after == before,
        r matches Ok(id) ==> {
            &&& id@ == (if request.consumer_id@.len() > 0 {
                request.consumer_id@
            } else {
                fresh
            })
            &&& exists|i: int|
                0 <= i < after.consumers@.len() && (#[trigger] after.consumers@[i]).id == id@
                    && after.consumers@[i].last_seen_at == now && (text::tight(request.topic@)
                    ==> after.consumers@[i].topic == request.topic@) && (text::tight(
                    request.name@,
                ) ==> after.consumers@[i].name == request.name@) && exists|
                    told: Map<Seq<char>, Seq<char>>,
                |
                    after.consumers@[i].attributes == #[trigger] json::object_text(told) && (
                    version.len() > 0 ==> told.contains_key("version"@) && told["version"@]
                        == version) && (host.len() > 0 ==> told.contains_key("host"@)
                        && told["host"@] == host) && (forall|k: Seq<char>|
                        k != "version"@ && k != "host"@ && #[trigger] request.attributes@.contains_key(
                            k,
                        ) ==> told.contains_key(k) && told[k] == request.attributes@[k])
        },
{
    text::law_tight_texts_stay(request.topic@);
    text::law_tight_texts_stay(request.name@);
    if let Ok(id) = r {
        reveal_strlit("version");
        reveal_strlit("host");
        assert("version"@.len() == 7 && "host"@.len() == 4);
        let what = consumers::RegistrationView {
            topic: text::trimmed(request.topic@),
            name: text::trimmed(request.name@),
            attributes: json::object_text(
                auth::noted(
                    auth::noted(request.attributes@, "version"@, version),
                    "host"@,
                    host,
                ),
            ),
        };
        consumers::law_a_registered_consumer_is_known(before.consumers@, id@, what, now);
        let i = consumers::consumer_place(after.consumers@, id@)->0;
        consumers::lemma_consumer_place(after.consumers@, id@);
        assert(after.consumers@[i].id == id@);
        let told = auth::noted(
            auth::noted(request.attributes@, "version"@, version),
            "host"@,
            host,
        );
        assert(after.consumers@[i].attributes == json::object_text(told));
    }
}

/// A subscription is made for a topic that is not blank. It is known by its
/// consumer, or by a fresh name where it has none, goes to the stream that was
/// opened for it, and works by the settings of the broker.
pub proof fn law_a_subscription_is_made_as_asked(
    before: Database,
    after: Database,
    config: Config,
    topic: Seq<char>,
    consumer_id: Seq<char>,
    version: Seq<char>,
    host: Seq<char>,
    peer: Seq<char>,
    tx: StreamSender,
    fresh: Seq<char>,
    now: Seq<char>,
    r: Result<SubscribeLoop, CallFault>,
)
    requires
        subscribed(
            before,
            after,
            config,
            topic,
            consumer_id,
            version,
            host,
            peer,
            tx,
            fresh,
            now,
            r,
        ),
    ensures
        text::blank(topic) <==> r is Err,
        r matches Err(fault) ==> fault == CallFault::Topic && after == before,
        r matches Ok(args) ==> {
            &&& text::tight(topic) ==> args@.topic == topic
            &&& text::blank(consumer_id) ==> args@.session == fresh && args@.consumer_id.len() == 0
                && after == before
            &&& text::tight(consumer_id) ==> args@.session == consumer_id && args@.consumer_id
                == consumer_id
            &&& args@.tx == tx
            &&& args@.peer == peer
            &&& args@.protocol == "grpc"@
            &&& version.len() > 0 ==> args@.version == version
            &&& host.len() > 0 ==> args@.host == host
            &&& args@.visibility == (if config.ack_timeout_secs == 0 {
                1
            } else {
                config.ack_timeout_secs
            })
            &&& args@.poll_ms == config.worker_poll_ms
            &&& args@.max_attempts == config.max_delivery_attempts
        },
{
    text::law_tight_texts_stay(topic);
    text::law_tight_texts_stay(consumer_id);
}

/// Settings are refused for an empty list, and else for the first of them that
/// lacks a topic or has a word that is not known; those that are not refused say
/// what their words say.
pub proof fn law_settings_are_refused_for_their_first_fault(
    list: Seq<BodyView>,
    body: BodyView,
    more: Seq<BodyView>,
)
    ensures
        configure_fault(Seq::empty()) == Some(CallFault::Topics),
        text::blank(body.topic) ==> config_asked(body) == Err::<model::TopicConfigView, CallFault>(
            CallFault::Topic,
        ),
        !text::blank(body.topic) && DeliveryMode::of(body.delivery) is None ==> config_asked(body)
            == Err::<model::TopicConfigView, CallFault>(CallFault::Delivery),
        !text::blank(body.topic) && DeliveryMode::of(body.delivery) is Some && PersistenceMode::of(
            body.persistence,
        ) is None ==> config_asked(body) == Err::<model::TopicConfigView, CallFault>(
            CallFault::Persistence,
        ),
        text::tight(body.topic) ==> (config_asked(body) matches Ok(c) ==> c.topic == body.topic
            && DeliveryMode::of(body.delivery) == Some(c.delivery) && PersistenceMode::of(
            body.persistence,
        ) == Some(c.persistence)),
        list.len() > 0 && configure_fault(list) is None && (config_asked(body) matches Err(
            fault,
        )) ==> configure_fault(list.push(body) + more) == Some(config_asked(body)->Err_0),
        list.len() > 0 && configure_fault(list) is None && config_asked(body) is Ok
            ==> configure_fault(list.push(body)) is None,
{
    text::law_tight_texts_stay(body.topic);
    let all = list.push(body);
    assert(all.drop_last() =~= list);
    if list.len() > 0 && configure_fault(list) is None && config_asked(body) is Err {
        lemma_fault_stays_first(all, more);
    }
}

proof fn lemma_fault_stays_first(list: Seq<BodyView>, more: Seq<BodyView>)
    requires
        first_fault(list) is Some,
    ensures
        first_fault(list + more) == first_fault(list),
    decreases more.len(),
{
    if more.len() == 0 {
        assert(list + more =~= list);
    } else {
        assert((list + more).drop_last() =~= list + more.drop_last());
        lemma_fault_stays_first(list, more.drop_last());
    }
}

/// Settings are told in the words that stand for them.
pub proof fn law_settings_are_told_in_words(list: Seq<model::TopicConfigView>, i: int)
    requires
        0 <= i < list.len(),
    ensures
        worded(list).len() == list.len(),
        worded(list)[i].topic == list[i].topic,
        worded(list)[i].delivery == (if list[i].delivery == DeliveryMode::Single {
            "single"@
        } else {
            "broadcast"@
        }),
        worded(list)[i].persistence == (if list[i].persistence == PersistenceMode::Persistent {
            "persistent"@
        } else {
            "ephemeral"@
        }),
{
}

/// A subscriber that does not tell its version or its host is shown with what
/// its consumer registered, if it names one that is known. Its consumer was seen
/// when it subscribed.
pub proof fn law_a_subscriber_is_known_by_its_consumer(
    before: Database,
    after: Database,
    config: Config,
    topic: Seq<char>,
    consumer_id: Seq<char>,
    version: Seq<char>,
    host: Seq<char>,
    peer: Seq<char>,
    tx: StreamSender,
    fresh: Seq<char>,
    now: Seq<char>,
    args: SubscribeLoop,
)
    requires
        subscribed(
            before,
            after,
            config,
            topic,
            consumer_id,
            version,
            host,
            peer,
            tx,
            fresh,
            now,
            Ok(args),
        ),
    ensures
        args@.topic == text::trimmed(topic),
        args@.consumer_id == text::trimmed(consumer_id),
        text::blank(consumer_id) ==> args@.version == version && args@.host == host,
        !text::blank(consumer_id) ==> args@.session == text::trimmed(consumer_id) && exists|
            known: bool,
        | #[trigger]
            snapshot::consumer_touched(before, after, text::trimmed(consumer_id), now, known),
        !text::blank(consumer_id) && version.len() == 0 ==> match consumers::attribute_in(
            after.consumers@,
            text::trimmed(consumer_id),
            "version"@,
        ) {
            Some(stored) => args@.version == stored,
            None => args@.version.len() == 0,
        },
        !text::blank(consumer_id) && host.len() == 0 ==> match consumers::attribute_in(
            after.consumers@,
            text::trimmed(consumer_id),
            "host"@,
        ) {
            Some(stored) => args@.host == stored,
            None => args@.host.len() == 0,
        },
{
    text::law_tight_texts_stay(consumer_id);
}

/// White space around a topic or a name does not count: the message, the
/// consumer and the settings go by what is left of it.
pub proof fn law_white_space_around_a_topic_does_not_count(
    before: Database,
    after: Database,
    live: Live,
    request: AcceptRequest,
    now: UtcTime,
    fresh: Seq<char>,
    intake: Intake,
    body: BodyView,
)
    requires
        accepted(before, after, live, request, now, fresh, Ok(intake)),
    ensures
        exists|message: Publication| #[trigger]
            delivery::taken_in(before, after, live, message, now, fresh, Ok(intake))
                && message.topic == text::trimmed(request.topic@) && message.payload
                == request.payload@ && message.attributes == request.attributes@
                && message.idempotency_key == Some(request.idempotency_key@),
        config_asked(body) matches Ok(c) ==> c.topic == text::trimmed(body.topic),
{
    let message = Publication {
        topic: text::trimmed(request.topic@),
        payload: request.payload@,
        attributes: request.attributes@,
        idempotency_key: Some(request.idempotency_key@),
    };
    assert(delivery::taken_in(before, after, live, message, now, fresh, Ok(intake)));
}

/// A consumer is registered under its topic and name without the white space
/// around them, with its attributes and the version and host that it told.
pub proof fn law_a_consumer_is_registered_with_what_it_told(
    before: Database,
    after: Database,
    request: RegisterRequest,
    version: Seq<char>,
    host: Seq<char>,
    fresh: Seq<char>,
    now: Seq<char>,
    id: String,
)
    requires
        registration(before, after, request, version, host, fresh, now, Ok(id)),
    ensures
        exists|i: int, attributes: Map<Seq<char>, Seq<char>>|
            0 <= i < after.consumers@.len() && (#[trigger] after.consumers@[i]).id == id@
                && after.consumers@[i].topic == text::trimmed(request.topic@)
                && after.consumers@[i].name == text::trimmed(request.name@)
                && after.consumers@[i].last_seen_at == now && after.consumers@[i].attributes
                == #[trigger] json::object_text(attributes) && (version.len() > 0
                ==> attributes.contains_key("version"@) && attributes["version"@] == version) && (
            host.len() > 0 ==> attributes.contains_key("host"@) && attributes["host"@] == host) && (
            forall|key: Seq<char>|
                key != "version"@ && key != "host"@ ==> (#[trigger] attributes.contains_key(key)
                    <==> request.attributes@.contains_key(key))) && (forall|key: Seq<char>|
                key != "version"@ && key != "host"@ && request.attributes@.contains_key(key)
                    ==> attributes[key] == #[trigger] request.attributes@[key]),
        request.consumer_id@.len() > 0 ==> id@ == request.consumer_id@,
        request.consumer_id@.len() == 0 ==> id@ == fresh,
        after.rows() == before.rows(),
{
    reveal_strlit("version");
    reveal_strlit("host");
    let attributes = auth::noted(
        auth::noted(request.attributes@, "version"@, version),
        "host"@,
        host,
    );
    let what = consumers::RegistrationView {
        topic: text::trimmed(request.topic@),
        name: text::trimmed(request.name@),
        attributes: json::object_text(attributes),
    };
    consumers::law_a_registered_consumer_is_known(before.consumers@, id@, what, now);
    consumers::lemma_consumer_place(after.consumers@, id@);
    let i = consumers::consumer_place(after.consumers@, id@)->0;
    assert("version"@.len() != "host"@.len());
    assert(after.consumers@[i].attributes == json::object_text(attributes));
}

} // verus!
