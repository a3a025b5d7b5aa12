//! The session of an MQTT client: who is let in, and what each packet leads to.
//!
//! The functions here decide; reading from and writing to the connection, and
//! running the subscriptions, is up to the caller.
use vstd::prelude::*;
use vstd::string::*;
use vstd::utf8::*;

use super::codec;
use super::codec::{
    CodecError, ConnAck, Connect, ConnectView, FilterView, Packet, PacketView, Publish, PublishView,
    SubAck, Subscribe, SubscribeFilter, Unsubscribe, CONNACK_ACCEPT, CONNACK_BAD_AUTH,
    CONNACK_IDENTIFIER, CONNACK_NOT_AUTHORIZED, CONNACK_PROTOCOL, MAX_PACKET_SIZE, SUBACK_FAILURE,
};
use super::inflight;
use super::inflight::InflightPublishes;
use crate::auth;
use crate::catalog;
use crate::clients;
use crate::clock;
use crate::clock::UtcTime;
use crate::config::Config;
use crate::db::Database;
use crate::delivery;
use crate::delivery::{Intake, Publication, SatwayMessage, SatwayView};
use crate::json::Attributes;
use crate::messages::StoreFault;
use crate::model;
use crate::shard;
use crate::subscribers;
use crate::subscribers::{AckDecision, InflightAcks, Live, StreamSender, TopicSubscribers};
use crate::subscription::{LoopView, SubscribeLoop};
use crate::table::TextMap;
use crate::text;
use crate::topic;

verus! {

// ------------------------------------------------------------------ reading

/// What the front of a receive buffer holds.
pub enum Frame {
    Packet(Packet),
    /// More bytes are needed.
    More,
    /// The connection is to be closed.
    Broken,
}

/// Takes a packet from the front of a receive buffer.
pub fn read_frame(buf: &mut Vec<u8>) -> (r: Frame)
    ensures
        final(buf)@ == codec::decoded(old(buf)@).1,
        match codec::decoded(old(buf)@).0 {
            Ok(Some(packet)) => r matches Frame::Packet(p) && p@ == packet,
            Ok(None) => if final(buf)@.len() > MAX_PACKET_SIZE + 5 {
                r is Broken
            } else {
                r is More
            },
            Err(_) => r is Broken,
        },
{
    let ghost before = buf@;
    let r: Result<Option<Packet>, CodecError> = codec::decode_one(buf);
    match r {
        Ok(Some(packet)) => Frame::Packet(packet),
        Ok(None) => if buf.len() > MAX_PACKET_SIZE + 5 {
            Frame::Broken
        } else {
            Frame::More
        },
        Err(_) => Frame::Broken,
    }
}

// ---------------------------------------------------------------- admission

/// The text of a password, if it is text.
pub open spec fn password_text(password: Option<Seq<u8>>) -> Option<Seq<char>> {
    match password {
        Some(bytes) => if valid_utf8(bytes) {
            Some(decode_utf8(bytes))
        } else {
            None
        },
        None => None,
    }
}

/// Whether a client may come in: no token is expected, or the password (without
/// the white space around it) or the user name is the token.
pub open spec fn authorized(expected: Option<Seq<char>>, connect: ConnectView) -> bool {
    match expected {
        None => true,
        Some(token) => {
            ||| (password_text(connect.password) matches Some(password) && text::trimmed(password)
                == token)
            ||| connect.username == Some(token)
        },
    }
}

fn mqtt_authorized(expected: Option<&str>, connect: &Connect) -> (r: bool)
    ensures
        r == authorized(text::opt_str(expected), connect@),
{
    let token: &str = match expected {
        Some(token) => token,
        None => {
            return true;
        },
    };
    match &connect.password {
        Some(password) => {
            let bytes: Vec<u8> = password.clone();
            proof {
                assert(bytes@ =~= password@);
            }
            match text::text_from_utf8(bytes) {
                Some(value) => {
                    if auth::tokens_match(token, Some(text::trim(value.as_str()))) {
                        return true;
                    }
                },
                None => {},
            }
        },
        None => {},
    }
    match &connect.username {
        Some(name) => auth::tokens_match(token, Some(name.as_str())),
        None => false,
    }
}

/// Whether a client with this user name and password may come in.
pub fn authorized_for_test(
    expected: Option<&str>,
    username: Option<&str>,
    password: Option<&str>,
) -> (r: bool)
    ensures
        r == (expected is None || (password is Some && text::trimmed(password->0@) == expected->0@)
            || text::opt_str(username) == text::opt_str(expected)),
{
    let user: Option<String> = match username {
        Some(name) => Some(name.to_string()),
        None => None,
    };
    let pass: Option<Vec<u8>> = match password {
        Some(value) => {
            proof {
                encode_utf8_valid_utf8(value@);
                encode_utf8_decode_utf8(value@);
            }
            Some(copy_bytes(value.as_bytes()))
        },
        None => None,
    };
    let connect: Connect = Connect {
        protocol_level: 4,
        clean_session: true,
        keep_alive: 0,
        client_id: "t".to_string(),
        username: user,
        password: pass,
    };
    mqtt_authorized(expected, &connect)
}

fn copy_bytes(bytes: &[u8]) -> (r: Vec<u8>)
    ensures
        r@ == bytes@,
{
    let mut out: Vec<u8> = Vec::new();
    let mut i: usize = 0;
    while i < bytes.len()
        invariant
            i <= bytes@.len(),
            out@ == bytes@.take(i as int),
        decreases bytes.len() - i,
    {
        out.push(bytes[i]);
        proof {
            assert(out@ =~= bytes@.take(i + 1));
        }
        i = i + 1;
    }
    proof {
        assert(bytes@.take(bytes@.len() as int) =~= bytes@);
    }
    out
}

/// Why a client is not let in.
pub enum Refusal {
    /// The first packet was not CONNECT.
    NotConnect,
    /// The protocol level is unknown.
    Protocol,
    /// A client without an id must ask for a clean session.
    Identifier,
    /// The token is missing.
    NotAuthorized,
    /// The token is wrong.
    BadAuth,
}

impl Refusal {
    /// The code with which the client is told, if it is told.
    pub open spec fn spec_code(self) -> Option<u8> {
        match self {
            Refusal::NotConnect => None,
            Refusal::Protocol => Some(CONNACK_PROTOCOL),
            Refusal::Identifier => Some(CONNACK_IDENTIFIER),
            Refusal::NotAuthorized => Some(CONNACK_NOT_AUTHORIZED),
            Refusal::BadAuth => Some(CONNACK_BAD_AUTH),
        }
    }

    /// The packet with which the client is told, if it is told.
    pub fn answer(&self) -> (r: Option<Packet>)
        ensures
            match self.spec_code() {
                Some(code) => r matches Some(packet) && packet@ == (PacketView::ConnAck {
                    session_present: false,
                    code,
                }),
                None => r is None,
            },
    {
        match self {
            Refusal::NotConnect => None,
            Refusal::Protocol => Some(connack(CONNACK_PROTOCOL)),
            Refusal::Identifier => Some(connack(CONNACK_IDENTIFIER)),
            Refusal::NotAuthorized => Some(connack(CONNACK_NOT_AUTHORIZED)),
            Refusal::BadAuth => Some(connack(CONNACK_BAD_AUTH)),
        }
    }
}

fn connack(code: u8) -> (r: Packet)
    ensures
        r@ == (PacketView::ConnAck { session_present: false, code }),
{
    Packet::ConnAck(ConnAck { session_present: false, code })
}

/// A client that is let in.
pub struct Admission {
    pub client_id: String,
    pub version: &'static str,
    pub keep_alive: u16,
}

/// The id of a client: its own, or a fresh one where it has none.
pub open spec fn client_name(own: Seq<char>, fresh: Seq<char>) -> Seq<char> {
    if text::trimmed(own).len() == 0 {
        "mqtt-"@ + fresh
    } else {
        text::trimmed(own)
    }
}

pub open spec fn version_name(level: u8) -> Seq<char> {
    if level == 3 {
        "3.1"@
    } else {
        "3.1.1"@
    }
}

/// Whether a client is let in, by the first packet that it sends.
pub open spec fn admitted(
    first: PacketView,
    auth_token: Option<Seq<char>>,
    fresh: Seq<char>,
    r: Result<Admission, Refusal>,
) -> bool {
    match first {
        PacketView::Connect(connect) => if connect.protocol_level != 3 && connect.protocol_level
            != 4 {
            r matches Err(Refusal::Protocol)
        } else if text::trimmed(connect.client_id).len() == 0 && !connect.clean_session {
            r matches Err(Refusal::Identifier)
        } else if !authorized(auth::told(auth_token), connect) {
            if connect.username is None && connect.password is None {
                r matches Err(Refusal::NotAuthorized)
            } else {
                r matches Err(Refusal::BadAuth)
            }
        } else {
            &&& r matches Ok(a)
            &&& a.client_id@ == client_name(connect.client_id, fresh)
            &&& a.version@ == version_name(connect.protocol_level)
            &&& a.keep_alive == connect.keep_alive
        },
        _ => r matches Err(Refusal::NotConnect),
    }
}

/// Decides whether a client is let in, by the first packet that it sends. A
/// client without an id gets one from `fresh`.
pub fn let_in_as(first: &Packet, auth_token: Option<&str>, fresh: &str) -> (r: Result<
    Admission,
    Refusal,
>)
    ensures
        admitted(first@, text::opt_str(auth_token), fresh@, r),
{
    let connect: &Connect = match first {
        Packet::Connect(connect) => connect,
        _ => {
            return Err(Refusal::NotConnect);
        },
    };
    if connect.protocol_level != 3 && connect.protocol_level != 4 {
        return Err(Refusal::Protocol);
    }
    let own: &str = text::trim(connect.client_id.as_str());
    if own.is_empty() && !connect.clean_session {
        return Err(Refusal::Identifier);
    }
    let client_id: String = if own.is_empty() {
        text::joined("mqtt-", fresh)
    } else {
        own.to_string()
    };
    let expected: Option<String> = auth::normalize(auth_token);
    let token: Option<&str> = match &expected {
        Some(token) => Some(token.as_str()),
        None => None,
    };
    if !mqtt_authorized(token, connect) {
        return if connect.username.is_none() && connect.password.is_none() {
            Err(Refusal::NotAuthorized)
        } else {
            Err(Refusal::BadAuth)
        };
    }
    Ok(
        Admission {
            client_id,
            version: connect.protocol_version(),
            keep_alive: connect.keep_alive,
        },
    )
}

/// Decides whether a client is let in, by the first packet that it sends.
pub fn let_in(first: &Packet, auth_token: Option<&str>) -> (r: Result<Admission, Refusal>)
    ensures
        exists|fresh: Seq<char>|
            shard::is_uuid_text(fresh) && #[trigger] admitted(
                first@,
                text::opt_str(auth_token),
                fresh,
                r,
            ),
{
    let fresh: String = shard::random_id();
    let_in_as(first, auth_token, fresh.as_str())
}

/// The packet with which a client is told that it is let in.
pub fn welcome() -> (r: Packet)
    ensures
        r@ == (PacketView::ConnAck { session_present: false, code: CONNACK_ACCEPT }),
{
    connack(CONNACK_ACCEPT)
}

/// After how many milliseconds without a packet a client is taken for gone: one
/// and a half times the keep-alive.
pub fn keepalive_idle(keep_alive: u16) -> (r: Option<u64>)
    ensures
        r == (if keep_alive == 0 {
            None::<u64>
        } else {
            Some((keep_alive * 1500) as u64)
        }),
        r is None <==> keep_alive == 0,
        r is Some ==> 2 * r->0 == 3000 * keep_alive,
{
    if keep_alive == 0 {
        None
    } else {
        Some(keep_alive as u64 * 1500)
    }
}

// ------------------------------------------------------------------ session

/// What the broker knows of a session.
pub struct SessionState {
    pub client_id: String,
    pub peer: String,
    pub transport: &'static str,
    pub version: String,
    pub keep_alive: u16,
    /// The subscriptions of the client with the quality of service granted.
    pub qos_by_topic: TextMap<u8>,
    pub inflight_pub: InflightPublishes,
    pub next_packet_id: u16,
}

/// The quality of service granted to each filter.
pub type Grants = Map<Seq<char>, u8>;

#[verifier::ext_equal]
pub struct StateView {
    pub client_id: Seq<char>,
    pub peer: Seq<char>,
    pub transport: Seq<char>,
    pub version: Seq<char>,
    pub keep_alive: u16,
    pub grants: Grants,
    pub published: inflight::Published,
    pub next_packet_id: u16,
}

impl View for SessionState {
    type V = StateView;

    open spec fn view(&self) -> StateView {
        StateView {
            client_id: self.client_id@,
            peer: self.peer@,
            transport: self.transport@,
            version: self.version@,
            keep_alive: self.keep_alive,
            grants: self.qos_by_topic@,
            published: self.inflight_pub@,
            next_packet_id: self.next_packet_id,
        }
    }
}

impl SessionState {
    /// The session of a client that was let in.
    pub fn new(who: Admission, peer: String, transport: &'static str) -> (r: SessionState)
        ensures
            r@ == (StateView {
                client_id: who.client_id@,
                peer: peer@,
                transport: transport@,
                version: who.version@,
                keep_alive: who.keep_alive,
                grants: Map::empty(),
                published: Map::empty(),
                next_packet_id: 0,
            }),
    {
        SessionState {
            client_id: who.client_id,
            peer,
            transport,
            version: who.version.to_string(),
            keep_alive: who.keep_alive,
            qos_by_topic: TextMap::new(),
            inflight_pub: InflightPublishes::new(),
            next_packet_id: 0,
        }
    }
}

// -------------------------------------------------------------- publishing

/// Why a published message was not taken.
pub enum PublishFault {
    /// The topic is not one to publish to.
    Topic,
    Store(StoreFault),
}

/// With which packet a publisher is told that its message was taken.
pub open spec fn receipt(publish: PublishView) -> Option<PacketView> {
    match publish.packet_id {
        Some(packet_id) => if publish.qos >= 2 {
            Some(PacketView::PubRec(packet_id))
        } else if publish.qos == 1 {
            Some(PacketView::PubAck(packet_id))
        } else {
            None
        },
        None => None,
    }
}

pub open spec fn opt_packet(packet: Option<Packet>) -> Option<PacketView> {
    match packet {
        Some(p) => Some(p@),
        None => None,
    }
}

/// A message of an MQTT client, as it is published.
pub open spec fn publication(client_id: Seq<char>, publish: PublishView) -> Publication {
    Publication {
        topic: text::trimmed(publish.topic),
        payload: publish.payload,
        attributes: Map::empty().insert("mqtt_client_id"@, client_id),
        idempotency_key: None,
    }
}

/// A message was taken from an MQTT client, or not.
pub open spec fn publish_taken(
    before: Database,
    after: Database,
    live: Live,
    client_id: Seq<char>,
    publish: PublishView,
    now: UtcTime,
    fresh: Seq<char>,
    r: Result<(Intake, Option<Packet>), PublishFault>,
) -> bool {
    let message = publication(client_id, publish);
    if !topic::valid_publish(message.topic) {
        r matches Err(PublishFault::Topic) && after == before
    } else {
        match r {
            Ok((intake, reply)) => {
                &&& delivery::taken_in(before, after, live, message, now, fresh, Ok(intake))
                &&& opt_packet(reply) == receipt(publish)
            },
            Err(PublishFault::Store(fault)) => delivery::taken_in(
                before,
                after,
                live,
                message,
                now,
                fresh,
                Err(fault),
            ),
            Err(PublishFault::Topic) => false,
        }
    }
}

/// Takes a message from an MQTT client at the time `now`, under the identifier
/// `fresh`. The packet that comes back is for the client, once the message is
/// where it belongs.
pub fn accept_publish_at(
    database: &mut Database,
    live: &TopicSubscribers,
    client_id: &str,
    publish: &Publish,
    now: UtcTime,
    fresh: String,
) -> (r: Result<(Intake, Option<Packet>), PublishFault>)
    requires
        old(database).wf(),
        now.valid(),
    ensures
        final(database).wf(),
        publish_taken(
            *old(database),
            *final(database),
            live@,
            client_id@,
            publish@,
            now,
            fresh@,
            r,
        ),
{
    let name: &str = text::trim(publish.topic.as_str());
    if !topic::is_valid_publish_topic(name) {
        return Err(PublishFault::Topic);
    }
    let mut attributes: Attributes = TextMap::new();
    attributes.set("mqtt_client_id".to_string(), client_id.to_string());
    let reply: Option<Packet> = match publish.packet_id {
        Some(packet_id) => if publish.qos >= 2 {
            Some(Packet::PubRec { packet_id })
        } else if publish.qos == 1 {
            Some(Packet::PubAck { packet_id })
        } else {
            None
        },
        None => None,
    };
    match delivery::ingest_at(
        database,
        live,
        name,
        &publish.payload,
        attributes,
        None,
        now,
        fresh,
    ) {
        Ok(intake) => Ok((intake, reply)),
        Err(fault) => Err(PublishFault::Store(fault)),
    }
}

/// Takes a message from an MQTT client now.
pub fn accept_publish(
    database: &mut Database,
    live: &TopicSubscribers,
    client_id: &str,
    publish: &Publish,
) -> (r: Result<(Intake, Option<Packet>), PublishFault>)
    requires
        old(database).wf(),
    ensures
        final(database).wf(),
        exists|now: UtcTime, fresh: Seq<char>|
            now.valid() && shard::is_uuid_text(fresh) && #[trigger] publish_taken(
                *old(database),
                *final(database),
                live@,
                client_id@,
                publish@,
                now,
                fresh,
                r,
            ),
{
    accept_publish_at(database, live, client_id, publish, clock::now(), shard::random_id())
}

// -------------------------------------------------------------- subscribing

/// The quality of service that is granted: at most one.
pub open spec fn granted(qos: u8) -> u8 {
    if qos == 0 {
        0
    } else {
        1
    }
}

/// Whether a filter can be subscribed to.
pub open spec fn acceptable(filter: FilterView) -> bool {
    topic::valid_filter(text::trimmed(filter.topic))
}

/// What a client is told of each filter.
pub open spec fn codes_for(filters: Seq<FilterView>) -> Seq<u8> {
    filters.map_values(
        |f: FilterView|
            if acceptable(f) {
                granted(f.qos)
            } else {
                SUBACK_FAILURE
            },
    )
}

/// The grants after a list of filters.
pub open spec fn grants_after(grants: Grants, filters: Seq<FilterView>) -> Grants
    decreases filters.len(),
{
    if filters.len() == 0 {
        grants
    } else {
        let before = grants_after(grants, filters.drop_last());
        let last = filters.last();
        if acceptable(last) {
            before.insert(text::trimmed(last.topic), granted(last.qos))
        } else {
            before
        }
    }
}

/// The catalogue after a list of filters.
pub open spec fn topics_after(
    topics: catalog::Topics,
    filters: Seq<FilterView>,
    now: Seq<char>,
) -> catalog::Topics
    decreases filters.len(),
{
    if filters.len() == 0 {
        topics
    } else {
        let before = topics_after(topics, filters.drop_last(), now);
        let last = filters.last();
        if acceptable(last) {
            catalog::subscription_noted(before, text::trimmed(last.topic), now)
        } else {
            before
        }
    }
}

/// The settings that were looked up, after a list of filters.
pub open spec fn configs_after(
    configs: Map<Seq<char>, model::TopicConfigView>,
    filters: Seq<FilterView>,
) -> Map<Seq<char>, model::TopicConfigView>
    decreases filters.len(),
{
    if filters.len() == 0 {
        configs
    } else {
        let before = configs_after(configs, filters.drop_last());
        let last = filters.last();
        if acceptable(last) {
            before.remove(text::trimmed(last.topic))
        } else {
            before
        }
    }
}

/// A subscription that is to be started, and whether it takes the place of one
/// that is to be stopped.
pub struct Start {
    pub replaces: bool,
    pub args: SubscribeLoop,
}

#[verifier::ext_equal]
pub struct StartView {
    pub replaces: bool,
    pub args: LoopView,
}

impl View for Start {
    type V = StartView;

    open spec fn view(&self) -> StartView {
        StartView { replaces: self.replaces, args: self.args@ }
    }
}

pub open spec fn start_views(list: Seq<Start>) -> Seq<StartView> {
    list.map_values(|s: Start| s@)
}

/// The subscription of a client to a filter.
pub open spec fn loop_for(
    state: StateView,
    config: Config,
    tx: StreamSender,
    filter: Seq<char>,
) -> LoopView {
    LoopView {
        topic: filter,
        session: clients::MQTT_PREFIX@ + state.client_id,
        consumer_id: Seq::empty(),
        tx,
        peer: state.peer,
        protocol: state.transport,
        version: state.version,
        host: Seq::empty(),
        visibility: config.visibility(),
        poll_ms: config.worker_poll_ms,
        max_attempts: config.max_delivery_attempts,
    }
}

/// The subscriptions that a list of filters starts.
pub open spec fn starts_for(
    state: StateView,
    config: Config,
    tx: StreamSender,
    filters: Seq<FilterView>,
) -> Seq<StartView>
    decreases filters.len(),
{
    if filters.len() == 0 {
        Seq::empty()
    } else {
        let init = filters.drop_last();
        let before = starts_for(state, config, tx, init);
        let last = filters.last();
        if acceptable(last) {
            before.push(
                StartView {
                    replaces: grants_after(state.grants, init).contains_key(
                        text::trimmed(last.topic),
                    ),
                    args: loop_for(state, config, tx, text::trimmed(last.topic)),
                },
            )
        } else {
            before
        }
    }
}

impl SessionState {
    /// Subscribes to one filter. Gives the code for the client, and the
    /// subscription that is to be started.
    pub fn subscribe_topic(
        &mut self,
        database: &mut Database,
        config: &Config,
        tx: StreamSender,
        filter: &SubscribeFilter,
        now: &str,
    ) -> (r: (u8, Option<Start>))
        ensures
            final(self)@ == (StateView {
                grants: grants_after(old(self)@.grants, seq![filter@]),
                ..old(self)@
            }),
            final(database).topics@ == topics_after(old(database).topics@, seq![filter@], now@),
            final(database).configs@ == configs_after(old(database).configs@, seq![filter@]),
            *final(database) == (Database {
                topics: final(database).topics,
                configs: final(database).configs,
                ..*old(database)
            }),
            r.0 == codes_for(seq![filter@])[0],
            match r.1 {
                Some(start) => acceptable(filter@) && start@ == (StartView {
                    replaces: old(self)@.grants.contains_key(text::trimmed(filter@.topic)),
                    args: loop_for(old(self)@, *config, tx, text::trimmed(filter@.topic)),
                }),
                None => !acceptable(filter@),
            },
    {
        proof {
            let one = seq![filter@];
            assert(one.drop_last() =~= Seq::<FilterView>::empty());
            reveal_with_fuel(grants_after, 2);
            reveal_with_fuel(topics_after, 2);
            reveal_with_fuel(configs_after, 2);
        }
        let name: &str = text::trim(filter.topic.as_str());
        if !topic::is_valid_subscribe_filter(name) {
            return (SUBACK_FAILURE, None);
        }
        database.note_subscribed_topic_at(name, now);
        let qos: u8 = if filter.qos == 0 {
            0
        } else {
            1
        };
        let replaces: bool = self.qos_by_topic.contains(name);
        self.qos_by_topic.set(name.to_string(), qos);
        let none: String = String::new();
        proof {
            assert(none@ =~= Seq::<char>::empty());
        }
        let args: SubscribeLoop = SubscribeLoop::new(
            config,
            name.to_string(),
            text::joined(clients::MQTT_PREFIX, self.client_id.as_str()),
            none.clone(),
            tx,
            self.peer.clone(),
            self.transport,
            self.version.clone(),
            none,
        );
        (qos, Some(Start { replaces, args }))
    }

    fn subscribe_all(
        &mut self,
        database: &mut Database,
        config: &Config,
        tx: StreamSender,
        filters: &Vec<SubscribeFilter>,
        now: &str,
    ) -> (r: (Vec<u8>, Vec<Start>))
        ensures
            final(self)@ == (StateView {
                grants: grants_after(old(self)@.grants, codec::filter_views(filters@)),
                ..old(self)@
            }),
            final(database).topics@ == topics_after(
                old(database).topics@,
                codec::filter_views(filters@),
                now@,
            ),
            final(database).configs@ == configs_after(
                old(database).configs@,
                codec::filter_views(filters@),
            ),
            *final(database) == (Database {
                topics: final(database).topics,
                configs: final(database).configs,
                ..*old(database)
            }),
            r.0@ == codes_for(codec::filter_views(filters@)),
            start_views(r.1@) == starts_for(
                old(self)@,
                *config,
                tx,
                codec::filter_views(filters@),
            ),
    {
        let ghost all = codec::filter_views(filters@);
        let ghost before = self@;
        let ghost stored = *database;
        let mut codes: Vec<u8> = Vec::new();
        let mut starts: Vec<Start> = Vec::new();
        let mut i: usize = 0;
        proof {
            assert(all.take(0) =~= Seq::<FilterView>::empty());
            assert(start_views(starts@) =~= Seq::<StartView>::empty());
        }
        while i < filters.len()
            invariant
                i <= filters@.len(),
                all == codec::filter_views(filters@),
                before == old(self)@,
                stored == *old(database),
                self@ == (StateView {
                    grants: grants_after(before.grants, all.take(i as int)),
                    ..before
                }),
                database.topics@ == topics_after(stored.topics@, all.take(i as int), now@),
                database.configs@ == configs_after(stored.configs@, all.take(i as int)),
                *database == (Database {
                    topics: database.topics,
                    configs: database.configs,
                    ..stored
                }),
                codes@.len() == i,
                forall|k: int| 0 <= k < i ==> #[trigger] codes@[k] == codes_for(all)[k],
                start_views(starts@) == starts_for(before, *config, tx, all.take(i as int)),
            decreases filters.len() - i,
        {
            let ghost so_far = all.take(i as int);
            let ghost last = filters@[i as int]@;
            let ghost started = start_views(starts@);
            proof {
                assert(all.take(i + 1).drop_last() =~= so_far);
                assert(all.take(i + 1).last() == last);
                assert(seq![last].drop_last() =~= Seq::<FilterView>::empty());
                reveal_with_fuel(grants_after, 2);
                reveal_with_fuel(topics_after, 2);
                reveal_with_fuel(configs_after, 2);
                assert(all[i as int] == last);
            }
            let (code, start): (u8, Option<Start>) = self.subscribe_topic(
                database,
                config,
                tx,
                &filters[i],
                now,
            );
            codes.push(code);
            match start {
                Some(start) => {
                    starts.push(start);
                    proof {
                        assert(start_views(starts@) =~= started.push(start@));
                    }
                },
                None => {},
            }
            i = i + 1;
        }
        proof {
            assert(all.take(all.len() as int) =~= all);
            assert(codes@ =~= codes_for(all));
        }
        (codes, starts)
    }
}

/// The grants without some filters.
pub open spec fn grants_without(grants: Grants, filters: Seq<Seq<char>>) -> Grants
    decreases filters.len(),
{
    if filters.len() == 0 {
        grants
    } else {
        grants_without(grants, filters.drop_last()).remove(filters.last())
    }
}

/// The subscriptions that are to be stopped when filters are given up.
pub open spec fn stops_for(grants: Grants, filters: Seq<Seq<char>>) -> Seq<Seq<char>>
    decreases filters.len(),
{
    if filters.len() == 0 {
        Seq::empty()
    } else {
        let init = filters.drop_last();
        let before = stops_for(grants, init);
        if grants_without(grants, init).contains_key(filters.last()) {
            before.push(filters.last())
        } else {
            before
        }
    }
}

impl SessionState {
    fn unsubscribe_all(&mut self, filters: &Vec<String>) -> (r: Vec<String>)
        ensures
            final(self)@ == (StateView {
                grants: grants_without(old(self)@.grants, text::texts(filters@)),
                ..old(self)@
            }),
            text::texts(r@) == stops_for(old(self)@.grants, text::texts(filters@)),
    {
        let ghost all = text::texts(filters@);
        let ghost before = self@;
        let mut stops: Vec<String> = Vec::new();
        let mut i: usize = 0;
        proof {
            assert(all.take(0) =~= Seq::<Seq<char>>::empty());
            assert(text::texts(stops@) =~= Seq::<Seq<char>>::empty());
        }
        while i < filters.len()
            invariant
                i <= filters@.len(),
                all == text::texts(filters@),
                before == old(self)@,
                self@ == (StateView {
                    grants: grants_without(before.grants, all.take(i as int)),
                    ..before
                }),
                text::texts(stops@) == stops_for(before.grants, all.take(i as int)),
            decreases filters.len() - i,
        {
            let ghost so_far = text::texts(stops@);
            proof {
                assert(all.take(i + 1).drop_last() =~= all.take(i as int));
                assert(all.take(i + 1).last() == filters@[i as int]@);
            }
            if self.qos_by_topic.take(filters[i].as_str()).is_some() {
                stops.push(filters[i].clone());
                proof {
                    assert(text::texts(stops@) =~= so_far.push(filters@[i as int]@));
                }
            }
            i = i + 1;
        }
        proof {
            assert(all.take(all.len() as int) =~= all);
        }
        stops
    }

    /// The subscriptions that are to be stopped when the session ends.
    pub fn subscriptions(&self) -> (r: Vec<String>)
        ensures
            text::ascending(text::texts(r@)),
            forall|t: Seq<char>| #[trigger]
                text::texts(r@).contains(t) <==> self@.grants.contains_key(t),
    {
        self.qos_by_topic.sorted_keys()
    }
}

// ----------------------------------------------------------------- reacting

/// What is to be done about a packet.
pub enum Reaction {
    Nothing,
    /// Answer the client.
    Reply(Packet),
    /// Take the message from the client.
    Ingest(Publish),
    /// Tell whoever waits under the lease.
    Acknowledged { lease: String, decision: AckDecision },
    /// Start subscriptions and answer the client.
    Subscribed { starts: Vec<Start>, reply: Packet },
    /// Stop subscriptions and answer the client.
    Unsubscribed { stops: Vec<String>, reply: Packet },
    /// The client leaves.
    End,
    /// The client broke the protocol.
    Fault,
}

/// Neither the store nor what is waited for has changed.
pub open spec fn nothing_else(
    before: Database,
    after: Database,
    pending: Map<Seq<char>, Seq<char>>,
    left: Map<Seq<char>, Seq<char>>,
) -> bool {
    after == before && left == pending
}

/// An acknowledgement of the client.
pub open spec fn ack_taken(
    state: StateView,
    next: StateView,
    pending: Map<Seq<char>, Seq<char>>,
    left: Map<Seq<char>, Seq<char>>,
    packet_id: u16,
    r: Reaction,
) -> bool {
    if state.published.contains_key(packet_id) {
        let (message_id, lease) = state.published[packet_id];
        &&& next == (StateView { published: state.published.remove(packet_id), ..state })
        &&& left == subscribers::acknowledged(pending, message_id, lease)
        &&& if subscribers::awaited(pending, message_id, lease) {
            r matches Reaction::Acknowledged { lease: told, decision } && told@ == lease
                && decision.success && decision.error@.len() == 0
        } else {
            r is Nothing
        }
    } else {
        next == state && left == pending && r is Nothing
    }
}

/// Subscriptions of the client.
pub open spec fn subscribe_taken(
    state: StateView,
    next: StateView,
    config: Config,
    tx: StreamSender,
    before: Database,
    after: Database,
    packet_id: u16,
    filters: Seq<FilterView>,
    now: Seq<char>,
    r: Reaction,
) -> bool {
    &&& next == (StateView { grants: grants_after(state.grants, filters), ..state })
    &&& after.topics@ == topics_after(before.topics@, filters, now)
    &&& after.configs@ == configs_after(before.configs@, filters)
    &&& after == (Database { topics: after.topics, configs: after.configs, ..before })
    &&& r matches Reaction::Subscribed { starts, reply }
    &&& start_views(starts@) == starts_for(state, config, tx, filters)
    &&& reply@ == (PacketView::SubAck { packet_id, codes: codes_for(filters) })
}

/// What a packet leads to.
pub open spec fn reacted(
    state: StateView,
    next: StateView,
    config: Config,
    tx: StreamSender,
    before: Database,
    after: Database,
    pending: Map<Seq<char>, Seq<char>>,
    left: Map<Seq<char>, Seq<char>>,
    packet: PacketView,
    now: Seq<char>,
    r: Reaction,
) -> bool {
    match packet {
        PacketView::PubAck(packet_id) => after == before && ack_taken(
            state,
            next,
            pending,
            left,
            packet_id,
            r,
        ),
        PacketView::Subscribe { packet_id, filters } => left == pending && subscribe_taken(
            state,
            next,
            config,
            tx,
            before,
            after,
            packet_id,
            filters,
            now,
            r,
        ),
        PacketView::Unsubscribe { packet_id, filters } => {
            &&& nothing_else(before, after, pending, left)
            &&& next == (StateView { grants: grants_without(state.grants, filters), ..state })
            &&& r matches Reaction::Unsubscribed { stops, reply }
            &&& text::texts(stops@) == stops_for(state.grants, filters)
            &&& reply@ == PacketView::UnsubAck(packet_id)
        },
        PacketView::Publish(publish) => {
            &&& nothing_else(before, after, pending, left)
            &&& next == state
            &&& r matches Reaction::Ingest(p) && p@ == publish
        },
        PacketView::PubRel(packet_id) => {
            &&& nothing_else(before, after, pending, left)
            &&& next == state
            &&& r matches Reaction::Reply(p) && p@ == PacketView::PubComp(packet_id)
        },
        PacketView::PingReq => {
            &&& nothing_else(before, after, pending, left)
            &&& next == state
            &&& r matches Reaction::Reply(p) && p@ == PacketView::PingResp
        },
        PacketView::Disconnect => {
            &&& nothing_else(before, after, pending, left)
            &&& next == state
            &&& r is End
        },
        PacketView::Connect(_) => {
            &&& nothing_else(before, after, pending, left)
            &&& next == state
            &&& r is Fault
        },
        _ => {
            &&& nothing_else(before, after, pending, left)
            &&& next == state
            &&& r is Nothing
        },
    }
}

/// The quality of service with which a message goes to the client: one, where a
/// subscription to its topic was granted that.
pub open spec fn qos_for(grants: Grants, topic: Seq<char>) -> u8 {
    if exists|filter: Seq<char>| grants_one(grants, filter, topic) {
        1
    } else {
        0
    }
}

pub open spec fn grants_one(grants: Grants, filter: Seq<char>, topic: Seq<char>) -> bool {
    grants.contains_key(filter) && topic::selects(filter, topic) && grants[filter] >= 1
}

/// A packet that is to be written; where `ack` is there, the message counts as
/// acknowledged as soon as that was done.
pub struct WriteJob {
    pub packet: Packet,
    pub ack: Option<(String, String)>,
}

pub open spec fn ack_view(ack: Option<(String, String)>) -> Option<(Seq<char>, Seq<char>)> {
    match ack {
        Some((message_id, lease)) => Some((message_id@, lease@)),
        None => None,
    }
}

/// A message on its way to the client as a packet.
pub open spec fn publish_of(message: SatwayView, qos: u8, packet_id: Option<u16>) -> PacketView {
    PacketView::Publish(
        PublishView {
            dup: false,
            qos,
            retain: false,
            topic: message.topic,
            packet_id,
            payload: message.payload,
        },
    )
}

/// A message is handed to the client: without acknowledgement, or under a packet
/// identifier that the client is to acknowledge.
pub open spec fn handed_out(
    state: StateView,
    next: StateView,
    message: SatwayView,
    r: WriteJob,
) -> bool {
    if qos_for(state.grants, message.topic) == 0 {
        &&& next == state
        &&& r.packet@ == publish_of(message, 0, None)
        &&& ack_view(r.ack) == Some((message.message_id, message.lease))
    } else {
        let packet_id = inflight::free_after(state.next_packet_id, state.published, 65535);
        &&& next == (StateView {
            next_packet_id: packet_id,
            published: state.published.insert(packet_id, (message.message_id, message.lease)),
            ..state
        })
        &&& r.packet@ == publish_of(message, 1, Some(packet_id))
        &&& r.ack is None
    }
}

fn granted_qos(grants: &TextMap<u8>, published_topic: &str) -> (r: u8)
    ensures
        r == qos_for(grants@, published_topic@),
{
    let n: usize = grants.len();
    let ghost keys = grants.key_seq();
    let mut i: usize = 0;
    while i < n
        invariant
            i <= n,
            n == keys.len(),
            keys == grants.key_seq(),
            forall|k: int| 0 <= k < i ==> !grants_one(grants@, #[trigger] keys[k], published_topic@),
        decreases n - i,
    {
        if *grants.value_at(i) >= 1 && topic::filter_matches(
            grants.key_at(i).as_str(),
            published_topic,
        ) {
            assert(grants_one(grants@, keys[i as int], published_topic@));
            return 1;
        }
        i = i + 1;
    }
    proof {
        assert forall|filter: Seq<char>| !grants_one(grants@, filter, published_topic@) by {
            if grants_one(grants@, filter, published_topic@) {
                assert(keys.contains(filter));
                assert(keys[keys.index_of(filter)] == filter);
            }
        }
    }
    0
}

impl SessionState {
    /// Reacts to a packet at the time `now`.
    pub fn handle_packet_at(
        &mut self,
        packet: Packet,
        database: &mut Database,
        acks: &mut InflightAcks,
        config: &Config,
        tx: StreamSender,
        now: &str,
    ) -> (r: Reaction)
        ensures
            reacted(
                old(self)@,
                final(self)@,
                *config,
                tx,
                *old(database),
                *final(database),
                old(acks)@,
                final(acks)@,
                packet@,
                now@,
                r,
            ),
    {
        match packet {
            Packet::Publish(publish) => Reaction::Ingest(publish),
            Packet::PubAck { packet_id } => match self.inflight_pub.remove(packet_id) {
                Some((message_id, lease)) => {
                    let none: String = String::new();
                    proof {
                        assert(none@.len() == 0);
                    }
                    match acks.complete(message_id.as_str(), lease.as_str(), true, none) {
                        Some(decision) => Reaction::Acknowledged { lease, decision },
                        None => Reaction::Nothing,
                    }
                },
                None => {
                    proof {
                        assert(old(self)@.published.remove(packet_id) =~= old(self)@.published);
                    }
                    Reaction::Nothing
                },
            },
            Packet::PubRel { packet_id } => Reaction::Reply(Packet::PubComp { packet_id }),
            Packet::Subscribe(subscribe) => {
                let (codes, starts): (Vec<u8>, Vec<Start>) = self.subscribe_all(
                    database,
                    config,
                    tx,
                    &subscribe.filters,
                    now,
                );
                let reply: Packet = Packet::SubAck(
                    SubAck { packet_id: subscribe.packet_id, codes },
                );
                Reaction::Subscribed { starts, reply }
            },
            Packet::Unsubscribe(unsubscribe) => {
                let stops: Vec<String> = self.unsubscribe_all(&unsubscribe.filters);
                let reply: Packet = Packet::UnsubAck { packet_id: unsubscribe.packet_id };
                Reaction::Unsubscribed { stops, reply }
            },
            Packet::PingReq => Reaction::Reply(Packet::PingResp),
            Packet::Disconnect => Reaction::End,
            Packet::Connect(_) => Reaction::Fault,
            _ => Reaction::Nothing,
        }
    }

    /// Reacts to a packet now.
    pub fn handle_packet(
        &mut self,
        packet: Packet,
        database: &mut Database,
        acks: &mut InflightAcks,
        config: &Config,
        tx: StreamSender,
    ) -> (r: Reaction)
        ensures
            exists|now: UtcTime|
                now.valid() && reacted(
                    old(self)@,
                    final(self)@,
                    *config,
                    tx,
                    *old(database),
                    *final(database),
                    old(acks)@,
                    final(acks)@,
                    packet@,
                    #[trigger] clock::time_text(now),
                    r,
                ),
    {
        let now: String = clock::text_of(clock::now());
        self.handle_packet_at(packet, database, acks, config, tx, now.as_str())
    }

    /// Takes a step of the session at the time `now`.
    pub fn step_at(
        &mut self,
        event: SessionEvent,
        database: &mut Database,
        acks: &mut InflightAcks,
        config: &Config,
        tx: StreamSender,
        now: &str,
    ) -> (r: SessionAction)
        ensures
            session_stepped(
                old(self)@,
                final(self)@,
                *config,
                tx,
                *old(database),
                *final(database),
                old(acks)@,
                final(acks)@,
                event,
                now@,
                r,
            ),
            old(database).wf() ==> final(database).wf(),
    {
        match event {
            SessionEvent::Outgoing(message) => SessionAction::Write(self.queue_outgoing(message)),
            SessionEvent::Incoming(packet) => {
                match self.handle_packet_at(packet, database, acks, config, tx, now) {
                    Reaction::End => SessionAction::End,
                    reaction => SessionAction::React(reaction),
                }
            },
            _ => SessionAction::End,
        }
    }

    /// Takes a step of the session now.
    pub fn step(
        &mut self,
        event: SessionEvent,
        database: &mut Database,
        acks: &mut InflightAcks,
        config: &Config,
        tx: StreamSender,
    ) -> (r: SessionAction)
        ensures
            old(database).wf() ==> final(database).wf(),
            exists|now: UtcTime|
                now.valid() && session_stepped(
                    old(self)@,
                    final(self)@,
                    *config,
                    tx,
                    *old(database),
                    *final(database),
                    old(acks)@,
                    final(acks)@,
                    event,
                    #[trigger] clock::time_text(now),
                    r,
                ),
    {
        let now: String = clock::text_of(clock::now());
        self.step_at(event, database, acks, config, tx, now.as_str())
    }

    /// Hands a message to the client.
    pub fn queue_outgoing(&mut self, message: SatwayMessage) -> (r: WriteJob)
        ensures
            handed_out(old(self)@, final(self)@, message@, r),
    {
        let qos: u8 = granted_qos(&self.qos_by_topic, message.topic.as_str());
        if qos == 0 {
            let packet: Packet = Packet::Publish(
                Publish {
                    dup: false,
                    qos: 0,
                    retain: false,
                    topic: message.topic,
                    packet_id: None,
                    payload: message.payload,
                },
            );
            return WriteJob { packet, ack: Some((message.message_id, message.lease)) };
        }
        let mut next: u16 = self.next_packet_id;
        let packet_id: u16 = inflight::alloc_packet_id(&mut next, &self.inflight_pub);
        self.next_packet_id = next;
        self.inflight_pub.insert(packet_id, message.message_id, message.lease);
        let packet: Packet = Packet::Publish(
            Publish {
                dup: false,
                qos: 1,
                retain: false,
                topic: message.topic,
                packet_id: Some(packet_id),
                payload: message.payload,
            },
        );
        WriteJob { packet, ack: None }
    }
}

/// What happened to a session.
pub enum SessionEvent {
    /// The broker stops, or the session was replaced.
    Cancelled,
    /// A message for the client.
    Outgoing(SatwayMessage),
    /// No more messages will come.
    OutgoingClosed,
    /// A packet of the client.
    Incoming(Packet),
    /// The client is gone.
    IncomingClosed,
    /// No packet came for too long.
    Idle,
}

/// What is to be done about it.
pub enum SessionAction {
    Write(WriteJob),
    React(Reaction),
    /// The session is over.
    End,
}

/// A step of a session.
pub open spec fn session_stepped(
    state: StateView,
    next: StateView,
    config: Config,
    tx: StreamSender,
    before: Database,
    after: Database,
    pending: Map<Seq<char>, Seq<char>>,
    left: Map<Seq<char>, Seq<char>>,
    event: SessionEvent,
    now: Seq<char>,
    r: SessionAction,
) -> bool {
    match event {
        SessionEvent::Outgoing(message) => {
            &&& nothing_else(before, after, pending, left)
            &&& r matches SessionAction::Write(job) && handed_out(state, next, message@, job)
        },
        SessionEvent::Incoming(packet) => match r {
            SessionAction::React(reaction) => !(reaction is End) && reacted(
                state,
                next,
                config,
                tx,
                before,
                after,
                pending,
                left,
                packet@,
                now,
                reaction,
            ),
            SessionAction::End => reacted(
                state,
                next,
                config,
                tx,
                before,
                after,
                pending,
                left,
                packet@,
                now,
                Reaction::End,
            ),
            _ => false,
        },
        _ => nothing_else(before, after, pending, left) && next == state && r is End,
    }
}

// -------------------------------------------------------------------- laws

/// Where a token is expected, a client that does not present it is not let in,
/// whatever else it says. A client that does all else right is told whether it
/// presented nothing or the wrong thing.
pub proof fn law_a_client_without_the_token_is_refused(
    connect: ConnectView,
    auth_token: Option<Seq<char>>,
    fresh: Seq<char>,
    r: Result<Admission, Refusal>,
)
    requires
        admitted(PacketView::Connect(connect), auth_token, fresh, r),
        auth::told(auth_token) matches Some(token) && connect.username != Some(token) && (
        password_text(connect.password) matches Some(password) ==> text::trimmed(password)
            != token),
    ensures
        r is Err,
        (connect.protocol_level == 3 || connect.protocol_level == 4) && (connect.clean_session
            || text::trimmed(connect.client_id).len() > 0) ==> (r matches Err(refusal)
            && refusal.spec_code() == Some(
            if connect.username is None && connect.password is None {
                CONNACK_NOT_AUTHORIZED
            } else {
                CONNACK_BAD_AUTH
            },
        )),
{
}

/// A message that the client acknowledges under its packet identifier is
/// acknowledged under the lease with which it was handed out.
pub proof fn law_a_puback_acknowledges_what_was_published(
    state: StateView,
    published: StateView,
    next: StateView,
    message: SatwayView,
    job: WriteJob,
    pending: Map<Seq<char>, Seq<char>>,
    left: Map<Seq<char>, Seq<char>>,
    r: Reaction,
    packet_id: u16,
)
    requires
        handed_out(state, published, message, job),
        job.packet@ == publish_of(message, 1, Some(packet_id)),
        ack_taken(published, next, pending, left, packet_id, r),
        subscribers::awaited(pending, message.message_id, message.lease),
    ensures
        r matches Reaction::Acknowledged { lease, decision } && lease@ == message.lease
            && decision.success,
        left == pending.remove(message.lease),
        !next.published.contains_key(packet_id),
{
}

/// Giving up a filter after subscribing to it leaves no grant for it.
pub proof fn law_unsubscribing_undoes_subscribing(grants: Grants, filter: FilterView)
    requires
        acceptable(filter),
        !grants.contains_key(text::trimmed(filter.topic)),
    ensures
        grants_without(
            grants_after(grants, seq![filter]),
            seq![text::trimmed(filter.topic)],
        ) == grants,
        stops_for(grants_after(grants, seq![filter]), seq![text::trimmed(filter.topic)])
            == seq![text::trimmed(filter.topic)],
{
    let one = seq![filter];
    let name = text::trimmed(filter.topic);
    assert(one.drop_last() =~= Seq::<FilterView>::empty());
    assert(seq![name].drop_last() =~= Seq::<Seq<char>>::empty());
    reveal_with_fuel(grants_after, 2);
    reveal_with_fuel(grants_without, 2);
    reveal_with_fuel(stops_for, 2);
    assert(grants_after(grants, one) =~= grants.insert(name, granted(filter.qos)));
    assert(grants.insert(name, granted(filter.qos)).remove(name) =~= grants);
    assert(Seq::<Seq<char>>::empty().push(name) =~= seq![name]);
}

/// Every filter of a subscription is answered, and those that are malformed with
/// a failure.
pub proof fn law_every_filter_is_answered(filters: Seq<FilterView>, i: int)
    requires
        0 <= i < filters.len(),
    ensures
        codes_for(filters).len() == filters.len(),
        !acceptable(filters[i]) <==> codes_for(filters)[i] == SUBACK_FAILURE,
        acceptable(filters[i]) ==> codes_for(filters)[i] <= 1,
{
}

/// A message that was taken from a client is answered by its quality of service:
/// with PUBREC for two, with PUBACK for one, each with the number of the packet,
/// and not at all for zero. A packet without a number is not answered.
pub proof fn law_a_publish_is_answered_by_its_service(
    before: Database,
    after: Database,
    live: Live,
    client_id: Seq<char>,
    publish: PublishView,
    now: UtcTime,
    fresh: Seq<char>,
    intake: Intake,
    reply: Option<Packet>,
    n: u16,
)
    requires
        publish_taken(before, after, live, client_id, publish, now, fresh, Ok((intake, reply))),
    ensures
        publish.packet_id == Some(n) && publish.qos == 2 ==> (reply matches Some(p) && p@
            == PacketView::PubRec(n)),
        publish.packet_id == Some(n) && publish.qos == 1 ==> (reply matches Some(p) && p@
            == PacketView::PubAck(n)),
        publish.qos == 0 ==> reply is None,
        publish.packet_id is None ==> reply is None,
{
}

/// A message is taken under its topic, without white space around it, and with
/// its payload; it tells which client sent it. It is refused, and nothing changes,
/// exactly under a topic that is blank or holds a wildcard or the character zero,
/// unless the store fails.
pub proof fn law_a_publish_is_taken_under_its_topic(
    before: Database,
    after: Database,
    live: Live,
    client_id: Seq<char>,
    publish: PublishView,
    now: UtcTime,
    fresh: Seq<char>,
    r: Result<(Intake, Option<Packet>), PublishFault>,
)
    requires
        publish_taken(before, after, live, client_id, publish, now, fresh, r),
    ensures
        text::blank(publish.topic) ==> (r matches Err(PublishFault::Topic)) && after == before,
        text::tight(publish.topic) ==> ((r matches Err(PublishFault::Topic))
            <==> publish.topic.contains('+') || publish.topic.contains('#')
            || publish.topic.contains('\0')),
        r matches Err(PublishFault::Topic) ==> after == before,
        r matches Ok((intake, _)) ==> exists|message: Publication|
            {
                &&& #[trigger] delivery::taken_in(
                    before,
                    after,
                    live,
                    message,
                    now,
                    fresh,
                    Ok(intake),
                )
                &&& text::tight(publish.topic) ==> message.topic == publish.topic
                &&& message.payload == publish.payload
                &&& message.idempotency_key is None
                &&& message.attributes.dom() == set!["mqtt_client_id"@]
                &&& message.attributes["mqtt_client_id"@] == client_id
            },
{
    text::law_tight_texts_stay(publish.topic);
    if let Ok((intake, _)) = r {
        let message = publication(client_id, publish);
        assert(delivery::taken_in(before, after, live, message, now, fresh, Ok(intake)));
        assert(message.attributes.dom() =~= set!["mqtt_client_id"@]);
    }
}

/// Who is let in: a client of a known version that names itself, or asks for a
/// session that is not kept, and that presents the token where one is expected,
/// as its user name or as its password. It keeps its name, or gets one.
pub proof fn law_a_client_with_the_token_is_let_in(
    connect: ConnectView,
    auth_token: Option<Seq<char>>,
    fresh: Seq<char>,
    r: Result<Admission, Refusal>,
)
    requires
        admitted(PacketView::Connect(connect), auth_token, fresh, r),
        connect.protocol_level == 3 || connect.protocol_level == 4,
        connect.clean_session || text::tight(connect.client_id),
        auth_token matches Some(token) ==> text::blank(token) || (text::tight(token) && (
        connect.username == Some(token) || connect.password == Some(encode_utf8(token)))),
    ensures
        r matches Ok(a) && {
            &&& text::tight(connect.client_id) ==> a.client_id@ == connect.client_id
            &&& text::blank(connect.client_id) ==> a.client_id@ == "mqtt-"@ + fresh
            &&& a.keep_alive == connect.keep_alive
            &&& connect.protocol_level == 3 ==> a.version@ == "3.1"@
            &&& connect.protocol_level == 4 ==> a.version@ == "3.1.1"@
        },
{
    text::law_tight_texts_stay(connect.client_id);
    if let Some(token) = auth_token {
        text::law_tight_texts_stay(token);
        encode_utf8_valid_utf8(token);
        encode_utf8_decode_utf8(token);
    }
}

/// Who is refused is told why in a number: one for a version that is not known,
/// two for a name that is missing, four for a wrong token and five for none. Who
/// does not begin with CONNECT is told nothing.
pub proof fn law_a_refused_client_is_told_why(
    first: PacketView,
    auth_token: Option<Seq<char>>,
    fresh: Seq<char>,
    r: Result<Admission, Refusal>,
)
    requires
        admitted(first, auth_token, fresh, r),
    ensures
        !(first is Connect) ==> (r matches Err(refusal) && refusal.spec_code() is None),
        first matches PacketView::Connect(c) ==> {
            &&& c.protocol_level != 3 && c.protocol_level != 4 ==> (r matches Err(refusal)
                && refusal.spec_code() == Some(1u8))
            &&& (c.protocol_level == 3 || c.protocol_level == 4) && text::blank(c.client_id)
                && !c.clean_session ==> (r matches Err(refusal) && refusal.spec_code() == Some(
                2u8,
            ))
            &&& (c.protocol_level == 3 || c.protocol_level == 4) && c.clean_session && (
            auth_token matches Some(token) && text::tight(token)) && c.username is None
                && c.password is None ==> (r matches Err(refusal) && refusal.spec_code() == Some(
                5u8,
            ))
            &&& (c.protocol_level == 3 || c.protocol_level == 4) && c.clean_session && (
            auth_token matches Some(token) && text::tight(token) && c.username != Some(token))
                && c.username is Some && c.password is None ==> (r matches Err(refusal)
                && refusal.spec_code() == Some(4u8))
        },
{
    if let PacketView::Connect(c) = first {
        text::law_tight_texts_stay(c.client_id);
    }
    if let Some(token) = auth_token {
        text::law_tight_texts_stay(token);
    }
}

/// A filter is granted the quality of service that was asked for, at most one, and
/// is refused where it is malformed. A granted filter is remembered with what it
/// was granted, the last time it was asked for, and one subscription is started
/// for it under its name.
pub proof fn law_a_subscription_is_granted(
    state: StateView,
    config: Config,
    tx: StreamSender,
    filters: Seq<FilterView>,
    f: FilterView,
)
    requires
        text::tight(f.topic),
    ensures
        codes_for(filters.push(f)).len() == filters.len() + 1,
        codes_for(filters.push(f)).drop_last() == codes_for(filters),
        topic::valid_filter(f.topic) ==> {
            let all = filters.push(f);
            &&& codes_for(all).last() == (if f.qos == 0 {
                0
            } else {
                1int
            })
            &&& grants_after(state.grants, all) == grants_after(state.grants, filters).insert(
                f.topic,
                codes_for(all).last(),
            )
            &&& starts_for(state, config, tx, all).len() == starts_for(
                state,
                config,
                tx,
                filters,
            ).len() + 1
            &&& starts_for(state, config, tx, all).drop_last() == starts_for(
                state,
                config,
                tx,
                filters,
            )
            &&& starts_for(state, config, tx, all).last().replaces == grants_after(
                state.grants,
                filters,
            ).contains_key(f.topic)
            &&& ({
                let args = starts_for(state, config, tx, all).last().args;
                &&& args.topic == f.topic
                &&& args.session == "mqtt:"@ + state.client_id
                &&& args.consumer_id.len() == 0
                &&& args.tx == tx
                &&& args.peer == state.peer
                &&& args.protocol == state.transport
                &&& args.version == state.version
                &&& args.host.len() == 0
                &&& args.visibility == (if config.ack_timeout_secs == 0 {
                    1
                } else {
                    config.ack_timeout_secs
                })
                &&& args.poll_ms == config.worker_poll_ms
                &&& args.max_attempts == config.max_delivery_attempts
            })
        },
        !topic::valid_filter(f.topic) ==> {
            let all = filters.push(f);
            &&& codes_for(all).last() == 128
            &&& grants_after(state.grants, all) == grants_after(state.grants, filters)
            &&& starts_for(state, config, tx, all) == starts_for(state, config, tx, filters)
        },
{
    let all = filters.push(f);
    text::law_tight_texts_stay(f.topic);
    assert(all.drop_last() =~= filters);
    assert(codes_for(all).drop_last() =~= codes_for(filters));
    let started = starts_for(state, config, tx, filters);
    if topic::valid_filter(f.topic) {
        assert(starts_for(state, config, tx, all).drop_last() =~= started);
    }
}

/// The topics and the settings after a subscription: each granted filter is noted
/// in the catalogue, and what was looked up for it is forgotten.
pub proof fn law_a_granted_filter_is_noted(
    topics: catalog::Topics,
    configs: Map<Seq<char>, model::TopicConfigView>,
    filters: Seq<FilterView>,
    f: FilterView,
    now: Seq<char>,
)
    requires
        text::tight(f.topic),
    ensures
        topic::valid_filter(f.topic) ==> topics_after(topics, filters.push(f), now)
            == catalog::subscription_noted(topics_after(topics, filters, now), f.topic, now)
            && configs_after(configs, filters.push(f)) == configs_after(configs, filters).remove(
            f.topic,
        ),
        !topic::valid_filter(f.topic) ==> topics_after(topics, filters.push(f), now)
            == topics_after(topics, filters, now) && configs_after(configs, filters.push(f))
            == configs_after(configs, filters),
{
    text::law_tight_texts_stay(f.topic);
    assert(filters.push(f).drop_last() =~= filters);
}

/// Each packet of a client is answered with the packet that MQTT has for it, under
/// the same number; a message is handed on as it came; a client that leaves ends
/// the session, and one that connects twice breaks it.
pub proof fn law_packets_are_answered_in_kind(
    state: StateView,
    next: StateView,
    config: Config,
    tx: StreamSender,
    before: Database,
    after: Database,
    pending: Map<Seq<char>, Seq<char>>,
    left: Map<Seq<char>, Seq<char>>,
    packet: PacketView,
    now: Seq<char>,
    r: Reaction,
)
    requires
        reacted(state, next, config, tx, before, after, pending, left, packet, now, r),
    ensures
        packet matches PacketView::PubRel(n) ==> (r matches Reaction::Reply(p) && p@
            == PacketView::PubComp(n)),
        packet is PingReq ==> (r matches Reaction::Reply(p) && p@ == PacketView::PingResp),
        packet matches PacketView::Publish(m) ==> (r matches Reaction::Ingest(p) && p@ == m),
        packet is Disconnect ==> r is End,
        packet is Connect ==> r is Fault,
        packet matches PacketView::Subscribe { packet_id, filters } ==> (
        r matches Reaction::Subscribed { starts, reply } && reply@ == (PacketView::SubAck {
            packet_id,
            codes: codes_for(filters),
        }) && next.grants == grants_after(state.grants, filters)),
        packet matches PacketView::Unsubscribe { packet_id, filters } ==> (
        r matches Reaction::Unsubscribed { stops, reply } && reply@ == PacketView::UnsubAck(
            packet_id,
        )),
        r is End ==> packet is Disconnect,
        r is Fault ==> packet is Connect,
        !(packet is Subscribe) ==> after == before,
        !(packet is PubAck) ==> left == pending && next.published == state.published,
        !(packet is Subscribe) && !(packet is Unsubscribe) ==> next.grants == state.grants,
        next.client_id == state.client_id && next.keep_alive == state.keep_alive
            && next.next_packet_id == state.next_packet_id,
{
}

/// Giving filters up takes their grants away and no other, and stops the
/// subscriptions of those that were granted.
pub proof fn law_giving_up_takes_the_grants_away(
    grants: Grants,
    filters: Seq<Seq<char>>,
    name: Seq<char>,
)
    ensures
        grants_without(grants, filters).contains_key(name) <==> grants.contains_key(name)
            && !filters.contains(name),
        grants_without(grants, filters).contains_key(name) ==> grants_without(grants, filters)[name]
            == grants[name],
        stops_for(grants, filters).contains(name) <==> grants.contains_key(name)
            && filters.contains(name),
    decreases filters.len(),
{
    if filters.len() > 0 {
        let init = filters.drop_last();
        law_giving_up_takes_the_grants_away(grants, init, name);
        let stops = stops_for(grants, init);
        assert(filters.contains(name) <==> init.contains(name) || filters.last() == name) by {
            if init.contains(name) {
                assert(filters[init.index_of(name)] == name);
            }
            if filters.contains(name) {
                let k = filters.index_of(name);
                if k < init.len() {
                    assert(init[k] == name);
                }
            }
        }
        let all = stops_for(grants, filters);
        if grants_without(grants, init).contains_key(filters.last()) {
            law_giving_up_takes_the_grants_away(grants, init, filters.last());
            assert(all == stops.push(filters.last()));
            assert(all[all.len() - 1] == filters.last());
            if stops.contains(name) {
                assert(all[stops.index_of(name)] == name);
            }
            if all.contains(name) {
                let k = all.index_of(name);
                if k < stops.len() {
                    assert(stops[k] == name);
                }
            }
        } else {
            law_giving_up_takes_the_grants_away(grants, init, filters.last());
        }
    }
}

/// A message goes to a client as it is. Where a filter that selects its topic was
/// granted a quality of service of one, it goes under a number that is free, and
/// waits for the acknowledgement under that number; else it is settled at once.
pub proof fn law_a_message_goes_out_by_its_grant(
    state: StateView,
    next: StateView,
    message: SatwayView,
    job: WriteJob,
    filter: Seq<char>,
    free: u16,
)
    requires
        handed_out(state, next, message, job),
    ensures
        job.packet@ matches PacketView::Publish(p) && p.topic == message.topic && p.payload
            == message.payload && !p.dup && !p.retain && p.qos <= 1 && (p.qos == 1
            <==> p.packet_id is Some),
        state.grants.contains_key(filter) && topic::selects(filter, message.topic)
            && state.grants[filter] >= 1 ==> (job.packet@ matches PacketView::Publish(p) && p.qos
            == 1),
        (forall|f: Seq<char>| #[trigger]
            state.grants.contains_key(f) && topic::selects(f, message.topic) ==> state.grants[f]
                == 0) ==> (job.packet@ matches PacketView::Publish(p) && p.qos == 0),
        job.packet@->Publish_0.qos == 0 ==> next == state && ack_view(job.ack) == Some(
            (message.message_id, message.lease),
        ),
        job.packet@->Publish_0.qos == 1 ==> job.ack is None && ({
            let n = job.packet@->Publish_0.packet_id->0;
            &&& next.published.contains_key(n)
            &&& next.published[n] == (message.message_id, message.lease)
            &&& free >= 1 && !state.published.contains_key(free) ==> n >= 1
                && !state.published.contains_key(n)
            &&& next.next_packet_id == n
            &&& next.grants == state.grants
        }),
{
    if state.grants.contains_key(filter) && topic::selects(filter, message.topic)
        && state.grants[filter] >= 1 {
        assert(grants_one(state.grants, filter, message.topic));
    }
    if free >= 1 && !state.published.contains_key(free) {
        inflight::law_a_free_packet_id_is_found(state.next_packet_id, state.published, free);
    }
}

/// An acknowledgement under a number that nothing was sent under changes nothing.
pub proof fn law_an_unknown_puback_changes_nothing(
    state: StateView,
    next: StateView,
    pending: Map<Seq<char>, Seq<char>>,
    left: Map<Seq<char>, Seq<char>>,
    packet_id: u16,
    r: Reaction,
)
    requires
        ack_taken(state, next, pending, left, packet_id, r),
        !state.published.contains_key(packet_id),
    ensures
        next == state,
        left == pending,
        r is Nothing,
{
}

/// White space around what a client writes does not count: not around its name,
/// its password, the filters it asks for and the topics it publishes to. Its user
/// name counts as it is.
pub proof fn law_white_space_around_names_does_not_count(
    state: StateView,
    config: Config,
    tx: StreamSender,
    filters: Seq<FilterView>,
    f: FilterView,
)
    ensures
        ({
            let plain = FilterView { topic: text::trimmed(f.topic), ..f };
            &&& codes_for(filters.push(f)) == codes_for(filters.push(plain))
            &&& grants_after(state.grants, filters.push(f)) == grants_after(
                state.grants,
                filters.push(plain),
            )
            &&& starts_for(state, config, tx, filters.push(f)) == starts_for(
                state,
                config,
                tx,
                filters.push(plain),
            )
        }),
        topic::valid_filter(text::trimmed(f.topic)) ==> grants_after(
            state.grants,
            filters.push(f),
        ).contains_key(text::trimmed(f.topic)),
{
    let plain = FilterView { topic: text::trimmed(f.topic), ..f };
    assert(filters.push(f).drop_last() =~= filters);
    assert(filters.push(plain).drop_last() =~= filters);
    let _ = text::law_trimming_finds_the_middle(f.topic);
    if plain.topic.len() > 0 {
        text::law_tight_texts_stay(plain.topic);
    } else {
        text::law_trimming_takes_white_space_off_the_ends(
            Seq::empty(),
            plain.topic,
            Seq::empty(),
        );
        assert(Seq::<char>::empty() + plain.topic + Seq::<char>::empty() =~= plain.topic);
    }
    assert(codes_for(filters.push(f)) =~= codes_for(filters.push(plain)));
}

/// A client that is let in goes by its name without the white space around it,
/// and a password is held against the token in the same way.
pub proof fn law_a_padded_name_and_password_count(
    connect: ConnectView,
    token: Seq<char>,
    password: Seq<char>,
    fresh: Seq<char>,
    r: Result<Admission, Refusal>,
)
    requires
        admitted(PacketView::Connect(connect), Some(token), fresh, r),
        connect.protocol_level == 3 || connect.protocol_level == 4,
        text::trimmed(connect.client_id).len() > 0,
        text::tight(token),
        connect.password == Some(encode_utf8(password)),
        connect.username is None,
    ensures
        text::trimmed(password) == token <==> r is Ok,
        r matches Ok(a) ==> a.client_id@ == text::trimmed(connect.client_id),
        r matches Err(refusal) ==> refusal.spec_code() == Some(4u8),
{
    text::law_tight_texts_stay(token);
    encode_utf8_valid_utf8(password);
    encode_utf8_decode_utf8(password);
}

/// A message goes under its topic without the white space around it.
pub proof fn law_a_padded_topic_counts(
    before: Database,
    after: Database,
    live: Live,
    client_id: Seq<char>,
    publish: PublishView,
    now: UtcTime,
    fresh: Seq<char>,
    intake: Intake,
    reply: Option<Packet>,
)
    requires
        publish_taken(before, after, live, client_id, publish, now, fresh, Ok((intake, reply))),
    ensures
        exists|message: Publication| #[trigger]
            delivery::taken_in(before, after, live, message, now, fresh, Ok(intake))
                && message.topic == text::trimmed(publish.topic) && message.payload
                == publish.payload,
{
    let message = publication(client_id, publish);
    assert(delivery::taken_in(before, after, live, message, now, fresh, Ok(intake)));
}

/// A session writes what is to go out and reacts to what comes in. It ends where
/// the client leaves and at every other event, and then changes nothing.
pub proof fn law_a_session_goes_on_while_packets_come(
    state: StateView,
    next: StateView,
    config: Config,
    tx: StreamSender,
    before: Database,
    after: Database,
    pending: Map<Seq<char>, Seq<char>>,
    left: Map<Seq<char>, Seq<char>>,
    event: SessionEvent,
    now: Seq<char>,
    r: SessionAction,
)
    requires
        session_stepped(
            state,
            next,
            config,
            tx,
            before,
            after,
            pending,
            left,
            event,
            now,
            r,
        ),
    ensures
        event is Outgoing <==> r is Write,
        event matches SessionEvent::Incoming(packet) ==> (r is End <==> packet@ is Disconnect),
        event matches SessionEvent::Incoming(packet) ==> r is End || r is React,
        !(event is Outgoing) && !(event is Incoming) ==> r is End,
        r is End ==> next == state && after == before && left == pending,
        r is Write ==> after == before && left == pending,
{
}

} // verus!
