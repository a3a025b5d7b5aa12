//! From publishers to subscribers.
//!
//! A persistent message is stored, and the subscriptions fetch it from there. An
//! ephemeral message goes to the live subscribers and is never stored.
//!
//! What takes time (sending, waiting for an acknowledgement, sleeping) is done
//! by the caller: the functions here say what is to be done, and are told how it
//! went.
use vstd::prelude::*;
use vstd::string::*;

use crate::clock;
use crate::clock::UtcTime;
use crate::db;
use crate::db::Database;
use crate::intake;
use crate::json;
use crate::json::Attributes;
use crate::messages::{InputView, StoreFault};
use crate::model::{DeliveryMode, PersistenceMode, TopicConfig};
use crate::shard;
use crate::subscribers;
use crate::subscribers::{Live, StreamSender, TopicSubscribers};
use crate::text;

verus! {

pub const PROTOCOL_GRPC: &'static str = "grpc";

/// A message on its way to a subscriber.
pub struct SatwayMessage {
    pub message_id: String,
    pub topic: String,
    pub payload: Vec<u8>,
    pub attributes: Attributes,
    pub created_at: String,
    pub lease: String,
}

#[verifier::ext_equal]
pub struct SatwayView {
    pub message_id: Seq<char>,
    pub topic: Seq<char>,
    pub payload: Seq<u8>,
    pub attributes: Map<Seq<char>, Seq<char>>,
    pub created_at: Seq<char>,
    pub lease: Seq<char>,
}

impl View for SatwayMessage {
    type V = SatwayView;

    open spec fn view(&self) -> SatwayView {
        SatwayView {
            message_id: self.message_id@,
            topic: self.topic@,
            payload: self.payload@,
            attributes: self.attributes@,
            created_at: self.created_at@,
            lease: self.lease@,
        }
    }
}

impl Clone for SatwayMessage {
    fn clone(&self) -> (r: Self)
        ensures
            r@ == self@,
    {
        let payload: Vec<u8> = self.payload.clone();
        proof {
            assert(payload@ =~= self.payload@);
        }
        SatwayMessage {
            message_id: self.message_id.clone(),
            topic: self.topic.clone(),
            payload,
            attributes: self.attributes.clone(),
            created_at: self.created_at.clone(),
            lease: self.lease.clone(),
        }
    }
}

// ---------------------------------------------------------------- publishing

/// What became of a published message.
pub enum Ingested {
    Queued { message_id: String, duplicate: bool },
    Dropped { message_id: String },
}

#[verifier::ext_equal]
pub enum IngestedView {
    Queued { message_id: Seq<char>, duplicate: bool },
    Dropped { message_id: Seq<char> },
}

impl View for Ingested {
    type V = IngestedView;

    open spec fn view(&self) -> IngestedView {
        match self {
            Ingested::Queued { message_id, duplicate } => IngestedView::Queued {
                message_id: message_id@,
                duplicate: *duplicate,
            },
            Ingested::Dropped { message_id } => IngestedView::Dropped { message_id: message_id@ },
        }
    }
}

/// An ephemeral message that is to be sent to live subscribers.
pub struct Fanout {
    pub message: SatwayMessage,
    pub to: Vec<StreamSender>,
}

/// What is to be done with a published message.
pub enum Intake {
    /// Nothing more.
    Done(Ingested),
    /// Send it, and tell how often that succeeded.
    Send(Fanout),
}

/// A message as it is published.
pub struct Publication {
    pub topic: Seq<char>,
    pub payload: Seq<u8>,
    pub attributes: Map<Seq<char>, Seq<char>>,
    pub idempotency_key: Option<Seq<char>>,
}

/// The streams that an ephemeral message goes to: all that receive its topic, or
/// one of them where each message is for one subscriber.
pub open spec fn are_targets(
    live: Live,
    topic: Seq<char>,
    delivery: DeliveryMode,
    to: Seq<StreamSender>,
) -> bool {
    exists|list: Seq<(Seq<char>, StreamSender)>| #[trigger]
        subscribers::are_receivers(live, topic, list) && to == streams(
            if delivery == DeliveryMode::Single && list.len() > 1 {
                list.take(1)
            } else {
                list
            },
        )
}

pub open spec fn streams(list: Seq<(Seq<char>, StreamSender)>) -> Seq<StreamSender> {
    list.map_values(|p: (Seq<char>, StreamSender)| p.1)
}

/// An ephemeral message was taken from a publisher. It is dropped where nobody
/// receives its topic, and is to be sent otherwise.
pub open spec fn ephemeral_taken(
    before: Database,
    after: Database,
    live: Live,
    delivery: DeliveryMode,
    message: Publication,
    now: UtcTime,
    fresh: Seq<char>,
    r: Result<Intake, StoreFault>,
) -> bool {
    match r {
        Ok(Intake::Done(done)) => {
            &&& are_targets(live, message.topic, delivery, Seq::empty())
            &&& done@ == (IngestedView::Dropped { message_id: fresh })
            &&& intake::live_only(before, after, message.topic, 0, 1, now)
        },
        Ok(Intake::Send(fanout)) => {
            &&& fanout.to@.len() > 0
            &&& are_targets(live, message.topic, delivery, fanout.to@)
            &&& fanout.message@ == (SatwayView {
                message_id: fresh,
                topic: message.topic,
                payload: message.payload,
                attributes: message.attributes,
                created_at: clock::time_text(now),
                lease: Seq::empty(),
            })
            &&& after == before
        },
        Err(_) => false,
    }
}

/// A persistent message was taken from a publisher: it was stored, or found
/// under its idempotency key.
pub open spec fn persistent_taken(
    before: Database,
    after: Database,
    message: Publication,
    now: UtcTime,
    fresh: Seq<char>,
    r: Result<Intake, StoreFault>,
) -> bool {
    let item = InputView {
        id: shard::shard_prefix(shard::shard_of(message.topic)) + fresh,
        idempotency_key: intake::usable_key(message.idempotency_key),
        topic: message.topic,
        payload: message.payload,
        attributes: json::object_text(message.attributes),
    };
    match r {
        Ok(Intake::Done(Ingested::Queued { message_id, duplicate })) => intake::one_stored(
            before,
            after,
            item,
            now,
            Ok((message_id, duplicate)),
        ),
        Ok(_) => false,
        Err(fault) => intake::one_stored(before, after, item, now, Err(fault)),
    }
}

/// A message was taken from a publisher.
pub open spec fn taken_in(
    before: Database,
    after: Database,
    live: Live,
    message: Publication,
    now: UtcTime,
    fresh: Seq<char>,
    r: Result<Intake, StoreFault>,
) -> bool {
    let config = db::config_of(before, message.topic);
    exists|mid: Database| #[trigger]
        db::config_looked_up(before, mid, message.topic) && (if config.persistence
            == PersistenceMode::Ephemeral {
            ephemeral_taken(mid, after, live, config.delivery, message, now, fresh, r)
        } else {
            persistent_taken(mid, after, message, now, fresh, r)
        })
}

fn fanout_ephemeral(
    database: &mut Database,
    live: &TopicSubscribers,
    topic: &str,
    payload: &Vec<u8>,
    attributes: Attributes,
    delivery: DeliveryMode,
    now: UtcTime,
    fresh: String,
) -> (r: Result<Intake, StoreFault>)
    requires
        now.valid(),
    ensures
        ephemeral_taken(
            *old(database),
            *final(database),
            live@,
            delivery,
            (Publication {
                topic: topic@,
                payload: payload@,
                attributes: attributes@,
                idempotency_key: None,
            }),
            now,
            fresh@,
            r,
        ),
{
    let mut senders: Vec<(String, StreamSender)> = live.matching_senders(topic);
    let ghost list = subscribers::sender_views(senders@);
    if delivery == DeliveryMode::Single {
        senders.truncate(1);
    }
    let ghost picked = if delivery == DeliveryMode::Single && list.len() > 1 {
        list.take(1)
    } else {
        list
    };
    proof {
        assert(subscribers::sender_views(senders@) =~= picked);
    }
    let mut to: Vec<StreamSender> = Vec::new();
    let mut i: usize = 0;
    while i < senders.len()
        invariant
            i <= senders@.len(),
            picked == subscribers::sender_views(senders@),
            to@.len() == i,
            forall|k: int| 0 <= k < i ==> #[trigger] to@[k] == streams(picked)[k],
        decreases senders.len() - i,
    {
        to.push(senders[i].1);
        i = i + 1;
    }
    proof {
        assert(to@ =~= streams(picked));
        assert(are_targets(live@, topic@, delivery, to@));
    }
    if to.len() == 0 {
        proof {
            assert(to@ =~= Seq::<StreamSender>::empty());
        }
        database.accept_dropped_at(topic, now);
        return Ok(Intake::Done(Ingested::Dropped { message_id: fresh }));
    }
    let body: Vec<u8> = payload.clone();
    let lease: String = String::new();
    proof {
        assert(body@ =~= payload@);
        assert(lease@ =~= Seq::<char>::empty());
    }
    let message: SatwayMessage = SatwayMessage {
        message_id: fresh,
        topic: topic.to_string(),
        payload: body,
        attributes,
        created_at: clock::text_of(now),
        lease,
    };
    Ok(Intake::Send(Fanout { message, to }))
}

/// Takes a message from a publisher at the time `now`, under the identifier
/// `fresh`.
pub fn ingest_at(
    database: &mut Database,
    live: &TopicSubscribers,
    topic: &str,
    payload: &Vec<u8>,
    attributes: Attributes,
    idempotency_key: Option<&str>,
    now: UtcTime,
    fresh: String,
) -> (r: Result<Intake, StoreFault>)
    requires
        old(database).wf(),
        now.valid(),
    ensures
        final(database).wf(),
        taken_in(
            *old(database),
            *final(database),
            live@,
            (Publication {
                topic: topic@,
                payload: payload@,
                attributes: attributes@,
                idempotency_key: text::opt_str(idempotency_key),
            }),
            now,
            fresh@,
            r,
        ),
{
    let settings: TopicConfig = database.topic_config(topic);
    let ghost mid = *database;
    let ghost message = Publication {
        topic: topic@,
        payload: payload@,
        attributes: attributes@,
        idempotency_key: text::opt_str(idempotency_key),
    };
    if settings.persistence == PersistenceMode::Ephemeral {
        let r: Result<Intake, StoreFault> = fanout_ephemeral(
            database,
            live,
            topic,
            payload,
            attributes,
            settings.delivery,
            now,
            fresh,
        );
        proof {
            assert(db::config_looked_up(*old(database), mid, topic@));
            assert(ephemeral_taken(
                mid,
                *database,
                live@,
                settings.delivery,
                message,
                now,
                fresh@,
                r,
            ));
        }
        return r;
    }
    proof {
        shard::law_every_topic_has_a_shard(topic@);
    }
    let id: String = shard::mark_with_shard(shard::topic_shard(topic), fresh.as_str());
    let stored: Result<(String, bool), StoreFault> = database.enqueue_at(
        id,
        idempotency_key,
        topic,
        payload,
        &attributes,
        now,
    );
    let r: Result<Intake, StoreFault> = match stored {
        Ok((message_id, duplicate)) => Ok(
            Intake::Done(Ingested::Queued { message_id, duplicate }),
        ),
        Err(fault) => Err(fault),
    };
    proof {
        assert(db::config_looked_up(*old(database), mid, topic@));
        assert(persistent_taken(mid, *database, message, now, fresh@, r));
    }
    r
}

/// Takes a message from a publisher now.
pub fn ingest(
    database: &mut Database,
    live: &TopicSubscribers,
    topic: &str,
    payload: &Vec<u8>,
    attributes: Attributes,
    idempotency_key: Option<&str>,
) -> (r: Result<Intake, StoreFault>)
    requires
        old(database).wf(),
    ensures
        final(database).wf(),
        exists|now: UtcTime, fresh: Seq<char>|
            now.valid() && shard::is_uuid_text(fresh) && #[trigger] taken_in(
                *old(database),
                *final(database),
                live@,
                (Publication {
                    topic: topic@,
                    payload: payload@,
                    attributes: attributes@,
                    idempotency_key: text::opt_str(idempotency_key),
                }),
                now,
                fresh,
                r,
            ),
{
    ingest_at(
        database,
        live,
        topic,
        payload,
        attributes,
        idempotency_key,
        clock::now(),
        shard::random_id(),
    )
}

/// An ephemeral message was sent. Where no subscriber took it, it was dropped,
/// under an identifier of its own.
pub open spec fn fanout_counted(
    before: Database,
    after: Database,
    topic: Seq<char>,
    message_id: Seq<char>,
    sent: usize,
    now: UtcTime,
    fresh: Seq<char>,
    r: IngestedView,
) -> bool {
    if sent == 0 {
        &&& r == (IngestedView::Dropped { message_id: fresh })
        &&& intake::live_only(before, after, topic, 0, 1, now)
    } else {
        &&& r == (IngestedView::Queued { message_id, duplicate: false })
        &&& intake::live_only(before, after, topic, 1, 0, now)
    }
}

/// Counts an ephemeral message that `sent` subscribers took, at the time `now`.
pub fn fanout_done_at(
    database: &mut Database,
    topic: &str,
    message_id: String,
    sent: usize,
    now: UtcTime,
    fresh: String,
) -> (r: Ingested)
    requires
        now.valid(),
    ensures
        fanout_counted(
            *old(database),
            *final(database),
            topic@,
            message_id@,
            sent,
            now,
            fresh@,
            r@,
        ),
{
    if sent == 0 {
        database.accept_dropped_at(topic, now);
        Ingested::Dropped { message_id: fresh }
    } else {
        database.record_live_fanout_at(topic, now);
        Ingested::Queued { message_id, duplicate: false }
    }
}

/// Counts an ephemeral message that `sent` subscribers took.
pub fn fanout_done(database: &mut Database, topic: &str, message_id: String, sent: usize) -> (r:
    Ingested)
    ensures
        exists|now: UtcTime, fresh: Seq<char>|
            now.valid() && shard::is_uuid_text(fresh) && #[trigger] fanout_counted(
                *old(database),
                *final(database),
                topic@,
                message_id@,
                sent,
                now,
                fresh,
                r@,
            ),
{
    fanout_done_at(database, topic, message_id, sent, clock::now(), shard::random_id())
}

/// The string members of the attributes of a message.
pub fn attrs_to_map(attributes: &str) -> (r: Attributes)
    ensures
        r@ == json::attributes_of(json::json_of(attributes@)),
{
    json::string_members(&json::parse_json(attributes))
}

/// A message of an ephemeral topic is never stored.
pub proof fn law_an_ephemeral_message_is_never_stored(
    before: Database,
    after: Database,
    live: Live,
    message: Publication,
    now: UtcTime,
    fresh: Seq<char>,
    r: Result<Intake, StoreFault>,
)
    requires
        taken_in(before, after, live, message, now, fresh, r),
        db::config_of(before, message.topic).persistence == PersistenceMode::Ephemeral,
    ensures
        after.rows() == before.rows(),
{
}

/// A message of a topic that nobody receives and nobody configured is dropped.
pub proof fn law_an_unheard_ephemeral_message_is_dropped(
    before: Database,
    after: Database,
    live: Live,
    message: Publication,
    now: UtcTime,
    fresh: Seq<char>,
    r: Result<Intake, StoreFault>,
)
    requires
        taken_in(before, after, live, message, now, fresh, r),
        db::config_of(before, message.topic).persistence == PersistenceMode::Ephemeral,
        forall|s: Seq<char>| !subscribers::receives(live, message.topic, s),
    ensures
        r matches Ok(Intake::Done(Ingested::Dropped { message_id })) && message_id@ == fresh,
{
    let config = db::config_of(before, message.topic);
    if let Ok(Intake::Send(fanout)) = r {
        let list = choose|list: Seq<(Seq<char>, StreamSender)>| #[trigger]
            subscribers::are_receivers(live, message.topic, list) && fanout.to@ == streams(
                if config.delivery == DeliveryMode::Single && list.len() > 1 {
                    list.take(1)
                } else {
                    list
                },
            );
        let ids = subscribers::session_ids(list);
        assert(list.len() > 0);
        assert(ids[0] == list[0].0);
        assert(ids.contains(ids[0]));
        assert(subscribers::receives(live, message.topic, ids[0]));
    }
}

/// Whether one of the streams belongs to a session that receives the topic.
pub open spec fn reaches(
    live: Live,
    topic: Seq<char>,
    session: Seq<char>,
    to: Seq<StreamSender>,
) -> bool {
    exists|i: int|
        0 <= i < to.len() && subscribers::receives_on(live, topic, session, #[trigger] to[i])
}

/// An ephemeral broadcast goes to every session that receives its topic.
pub proof fn law_a_broadcast_reaches_everyone(
    before: Database,
    after: Database,
    live: Live,
    message: Publication,
    now: UtcTime,
    fresh: Seq<char>,
    fanout: Fanout,
    session: Seq<char>,
)
    requires
        taken_in(before, after, live, message, now, fresh, Ok(Intake::Send(fanout))),
        db::config_of(before, message.topic).persistence == PersistenceMode::Ephemeral,
        db::config_of(before, message.topic).delivery == DeliveryMode::Broadcast,
        subscribers::receives(live, message.topic, session),
    ensures
        reaches(live, message.topic, session, fanout.to@),
{
    let list = choose|list: Seq<(Seq<char>, StreamSender)>| #[trigger]
        subscribers::are_receivers(live, message.topic, list) && fanout.to@ == streams(list);
    let ids = subscribers::session_ids(list);
    assert(ids.contains(session));
    let i = ids.index_of(session);
    assert(list[i].0 == session);
    assert(fanout.to@[i] == list[i].1);
}

/// An ephemeral message that is for one subscriber goes to one, and to one that
/// receives its topic.
pub proof fn law_a_single_message_goes_to_one(
    before: Database,
    after: Database,
    live: Live,
    message: Publication,
    now: UtcTime,
    fresh: Seq<char>,
    fanout: Fanout,
)
    requires
        taken_in(before, after, live, message, now, fresh, Ok(Intake::Send(fanout))),
        db::config_of(before, message.topic).persistence == PersistenceMode::Ephemeral,
        db::config_of(before, message.topic).delivery == DeliveryMode::Single,
    ensures
        fanout.to@.len() == 1,
        exists|session: Seq<char>| #[trigger]
            reaches(live, message.topic, session, fanout.to@),
{
    let list = choose|list: Seq<(Seq<char>, StreamSender)>| #[trigger]
        subscribers::are_receivers(live, message.topic, list) && fanout.to@ == streams(
            if list.len() > 1 {
                list.take(1)
            } else {
                list
            },
        );
    assert(list.len() > 0);
    assert(fanout.to@[0] == list[0].1);
    assert(subscribers::receives_on(live, message.topic, list[0].0, list[0].1));
    assert(reaches(live, message.topic, list[0].0, fanout.to@));
}

/// An ephemeral message that somebody receives is sent as it was published,
/// under the identifier it was given and without a lease; the store is left
/// alone.
pub proof fn law_an_ephemeral_message_is_sent_as_it_came(
    before: Database,
    after: Database,
    live: Live,
    message: Publication,
    now: UtcTime,
    fresh: Seq<char>,
    r: Result<Intake, StoreFault>,
    session: Seq<char>,
)
    requires
        taken_in(before, after, live, message, now, fresh, r),
        db::config_of(before, message.topic).persistence == PersistenceMode::Ephemeral,
        subscribers::receives(live, message.topic, session),
    ensures
        r matches Ok(Intake::Send(fanout)) && fanout.message.message_id@ == fresh
            && fanout.message.topic@ == message.topic && fanout.message.payload@ == message.payload
            && fanout.message.attributes@ == message.attributes && fanout.message.created_at@
            == clock::time_text(now) && fanout.message.lease@.len() == 0,
        after.rows() == before.rows(),
        after.stats@ == before.stats@,
{
    let config = db::config_of(before, message.topic);
    if let Ok(Intake::Done(done)) = r {
        let list = choose|list: Seq<(Seq<char>, StreamSender)>| #[trigger]
            subscribers::are_receivers(live, message.topic, list) && Seq::<StreamSender>::empty()
                == streams(
                if config.delivery == DeliveryMode::Single && list.len() > 1 {
                    list.take(1)
                } else {
                    list
                },
            );
        assert(list.len() == 0) by {
            assert(streams(
                if config.delivery == DeliveryMode::Single && list.len() > 1 {
                    list.take(1)
                } else {
                    list
                },
            ).len() == 0);
        }
        assert(subscribers::session_ids(list).contains(session));
    }
}

/// A message of a persistent topic is stored as it was published, under an
/// identifier that names its topic's shard. It is never dropped, and nobody is
/// sent it from here.
pub proof fn law_a_persistent_message_is_stored_as_it_came(
    before: Database,
    after: Database,
    live: Live,
    message: Publication,
    now: UtcTime,
    fresh: Seq<char>,
    r: Result<Intake, StoreFault>,
)
    requires
        taken_in(before, after, live, message, now, fresh, r),
        db::config_of(before, message.topic).persistence == PersistenceMode::Persistent,
    ensures
        !(r matches Ok(Intake::Send(_))),
        !(r matches Ok(Intake::Done(Ingested::Dropped { .. }))),
        exists|mid: Database, item: InputView, answer: Result<(String, bool), StoreFault>| #[trigger]
            intake::one_stored(mid, after, item, now, answer) && {
                &&& mid.rows() == before.rows()
                &&& item.id == shard::shard_prefix(shard::shard_of(message.topic)) + fresh
                &&& item.topic == message.topic
                &&& item.payload == message.payload
                &&& item.attributes == json::object_text(message.attributes)
                &&& item.idempotency_key == (match message.idempotency_key {
                    Some(key) => if key.len() == 0 {
                        None
                    } else {
                        Some(key)
                    },
                    None => None::<Seq<char>>,
                })
                &&& match answer {
                    Ok((id, duplicate)) => r matches Ok(
                        Intake::Done(Ingested::Queued { message_id, duplicate: again }),
                    ) && message_id == id && again == duplicate,
                    Err(fault) => r == Err::<Intake, StoreFault>(fault),
                }
            },
{
    let mid = choose|mid: Database| #[trigger]
        db::config_looked_up(before, mid, message.topic) && persistent_taken(
            mid,
            after,
            message,
            now,
            fresh,
            r,
        );
    let item = InputView {
        id: shard::shard_prefix(shard::shard_of(message.topic)) + fresh,
        idempotency_key: intake::usable_key(message.idempotency_key),
        topic: message.topic,
        payload: message.payload,
        attributes: json::object_text(message.attributes),
    };
    match r {
        Ok(Intake::Done(Ingested::Queued { message_id, duplicate })) => {
            let answer: Result<(String, bool), StoreFault> = Ok((message_id, duplicate));
            assert(intake::one_stored(mid, after, item, now, answer));
        },
        Ok(_) => {},
        Err(fault) => {
            let answer: Result<(String, bool), StoreFault> = Err(fault);
            assert(intake::one_stored(mid, after, item, now, answer));
        },
    }
}

/// A message that reached nobody counts as dropped and its publisher is told so.
/// One that reached somebody counts as delivered, however many it reached.
pub proof fn law_a_sent_message_counts_once(
    before: Database,
    after: Database,
    topic: Seq<char>,
    message_id: Seq<char>,
    sent: usize,
    now: UtcTime,
    fresh: Seq<char>,
    r: IngestedView,
)
    requires
        fanout_counted(before, after, topic, message_id, sent, now, fresh, r),
    ensures
        r is Dropped <==> sent == 0,
        r matches IngestedView::Dropped { message_id: id } ==> id == fresh,
        r matches IngestedView::Queued { message_id: id, duplicate } ==> id == message_id
            && !duplicate,
        sent == 0 ==> intake::live_only(before, after, topic, 0, 1, now),
        sent > 0 ==> intake::live_only(before, after, topic, 1, 0, now),
{
}

} // verus!
