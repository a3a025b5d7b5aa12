//! The connected clients with their subscriptions.
//!
//! A client is an MQTT client, a gRPC connection, or what the remaining
//! subscriptions of one host (of one peer, where the host is not known) make.
use vstd::prelude::*;
use vstd::string::*;

use crate::grpc_conn::{GrpcClientInfo, GrpcClientView};
use crate::json::Attributes;
use crate::model::{ConsumerSnapshot, ConsumerSnapshotView, TopicSnapshot, TopicSnapshotView};
use crate::mqtt::{MqttClientInfo, MqttClientView};
use crate::order;
use crate::order::Order;
use crate::subscribers::{SessionInfo, SessionView};
use crate::table::TextMap;
use crate::text;

verus! {

/// What the session of an MQTT client is called, before the client's id.
pub const MQTT_PREFIX: &'static str = "mqtt:";

/// A subscription of a client.
pub struct ClientSubscription {
    pub id: String,
    pub name: String,
    pub topic: String,
    pub protocol: &'static str,
    pub version: String,
    pub host: String,
    pub attributes: Attributes,
    pub connected_at: String,
    pub last_seen_at: String,
}

#[verifier::ext_equal]
pub struct SubscriptionView {
    pub id: Seq<char>,
    pub name: Seq<char>,
    pub topic: Seq<char>,
    pub protocol: Seq<char>,
    pub version: Seq<char>,
    pub host: Seq<char>,
    pub attributes: Map<Seq<char>, Seq<char>>,
    pub connected_at: Seq<char>,
    pub last_seen_at: Seq<char>,
}

impl View for ClientSubscription {
    type V = SubscriptionView;

    open spec fn view(&self) -> SubscriptionView {
        SubscriptionView {
            id: self.id@,
            name: self.name@,
            topic: self.topic@,
            protocol: self.protocol@,
            version: self.version@,
            host: self.host@,
            attributes: self.attributes@,
            connected_at: self.connected_at@,
            last_seen_at: self.last_seen_at@,
        }
    }
}

/// A connected client.
pub struct ClientInfo {
    pub peer: String,
    pub protocol: &'static str,
    pub client_id: String,
    pub version: String,
    pub host: String,
    pub streams: usize,
    pub connected_at: String,
    pub last_seen_at: String,
    pub subscriptions: Vec<ClientSubscription>,
}

#[verifier::ext_equal]
pub struct ClientView {
    pub peer: Seq<char>,
    pub protocol: Seq<char>,
    pub client_id: Seq<char>,
    pub version: Seq<char>,
    pub host: Seq<char>,
    pub streams: nat,
    pub connected_at: Seq<char>,
    pub last_seen_at: Seq<char>,
    pub subscriptions: Seq<SubscriptionView>,
}

impl View for ClientInfo {
    type V = ClientView;

    open spec fn view(&self) -> ClientView {
        ClientView {
            peer: self.peer@,
            protocol: self.protocol@,
            client_id: self.client_id@,
            version: self.version@,
            host: self.host@,
            streams: self.streams as nat,
            connected_at: self.connected_at@,
            last_seen_at: self.last_seen_at@,
            subscriptions: order::views(self.subscriptions@),
        }
    }
}

// -------------------------------------------------- registered consumers

/// The last of the consumers with an id.
pub open spec fn consumer_with(consumers: Seq<ConsumerSnapshotView>, id: Seq<char>) -> Option<
    ConsumerSnapshotView,
>
    decreases consumers.len(),
{
    if consumers.len() == 0 {
        None
    } else if consumers.last().id == id {
        Some(consumers.last())
    } else {
        consumer_with(consumers.drop_last(), id)
    }
}

/// The consumer that is registered for a topic under an id.
pub open spec fn registered(
    topics: Seq<TopicSnapshotView>,
    topic: Seq<char>,
    id: Seq<char>,
) -> Option<ConsumerSnapshotView>
    decreases topics.len(),
{
    if topics.len() == 0 {
        None
    } else if topics.last().name == topic && consumer_with(topics.last().consumers, id) is Some {
        consumer_with(topics.last().consumers, id)
    } else {
        registered(topics.drop_last(), topic, id)
    }
}

fn find_consumer<'a>(consumers: &'a Vec<ConsumerSnapshot>, id: &str) -> (r: Option<
    &'a ConsumerSnapshot,
>)
    ensures
        match r {
            Some(c) => consumer_with(order::views(consumers@), id@) == Some(c@),
            None => consumer_with(order::views(consumers@), id@) is None,
        },
{
    let ghost all = order::views(consumers@);
    let mut i: usize = consumers.len();
    proof {
        assert(all.take(i as int) =~= all);
    }
    while i > 0
        invariant
            i <= consumers@.len(),
            all == order::views(consumers@),
            consumer_with(all, id@) == consumer_with(all.take(i as int), id@),
        decreases i,
    {
        proof {
            let head = all.take(i as int);
            assert(head.last() == consumers@[i - 1]@);
            assert(head.drop_last() =~= all.take(i - 1));
        }
        i = i - 1;
        if text::text_eq(consumers[i].id.as_str(), id) {
            return Some(&consumers[i]);
        }
    }
    None
}

fn find_registered<'a>(topics: &'a [TopicSnapshot], topic: &str, id: &str) -> (r: Option<
    &'a ConsumerSnapshot,
>)
    ensures
        match r {
            Some(c) => registered(order::views(topics@), topic@, id@) == Some(c@),
            None => registered(order::views(topics@), topic@, id@) is None,
        },
{
    let ghost all = order::views(topics@);
    let mut i: usize = topics.len();
    proof {
        assert(all.take(i as int) =~= all);
    }
    while i > 0
        invariant
            i <= topics@.len(),
            all == order::views(topics@),
            registered(all, topic@, id@) == registered(all.take(i as int), topic@, id@),
        decreases i,
    {
        proof {
            let head = all.take(i as int);
            assert(head.last() == topics@[i - 1]@);
            assert(head.drop_last() =~= all.take(i - 1));
            assert(topics@[i - 1]@.consumers =~= order::views(topics@[i - 1].consumers@));
        }
        i = i - 1;
        if text::text_eq(topics[i].name.as_str(), topic) {
            let found: Option<&ConsumerSnapshot> = find_consumer(&topics[i].consumers, id);
            if found.is_some() {
                return found;
            }
        }
    }
    None
}

// --------------------------------------------------------- subscriptions

/// The value of an attribute; empty where there is none.
pub open spec fn attribute(attributes: Map<Seq<char>, Seq<char>>, name: Seq<char>) -> Seq<char> {
    if attributes.contains_key(name) {
        attributes[name]
    } else {
        Seq::empty()
    }
}

/// `told`, where it is not empty, else `known`.
pub open spec fn filled_or(told: Seq<char>, known: Seq<char>) -> Seq<char> {
    if told.len() == 0 {
        known
    } else {
        told
    }
}

/// The client id in the id of the session of an MQTT client; else nothing.
pub open spec fn mqtt_name(id: Seq<char>) -> Seq<char> {
    match text::after_prefix(id, MQTT_PREFIX@) {
        Some(rest) => rest,
        None => Seq::empty(),
    }
}

/// A session as a subscription: what it did not tell comes from the consumer
/// that is registered for it.
pub open spec fn subscription_of(
    session: SessionView,
    consumer: Option<ConsumerSnapshotView>,
) -> SubscriptionView {
    let attributes = match consumer {
        Some(c) => c.attributes,
        None => Map::empty(),
    };
    SubscriptionView {
        id: session.id,
        name: match consumer {
            Some(c) => filled_or(c.name, mqtt_name(session.id)),
            None => mqtt_name(session.id),
        },
        topic: session.topic,
        protocol: session.protocol,
        version: filled_or(session.version, attribute(attributes, "version"@)),
        host: filled_or(session.host, attribute(attributes, "host"@)),
        attributes,
        connected_at: session.connected_at,
        last_seen_at: match consumer {
            Some(c) => c.last_seen_at,
            None => session.connected_at,
        },
    }
}

fn attribute_value(attributes: &Attributes, name: &str) -> (r: String)
    ensures
        r@ == attribute(attributes@, name@),
{
    match attributes.get(name) {
        Some(value) => value.clone(),
        None => {
            let r: String = String::new();
            assert(r@ =~= Seq::<char>::empty());
            r
        },
    }
}

fn told_or_known(told: &String, known: String) -> (r: String)
    ensures
        r@ == filled_or(told@, known@),
{
    if told.as_str().is_empty() {
        known
    } else {
        told.clone()
    }
}

fn to_subscription(session: &SessionInfo, topics: &[TopicSnapshot]) -> (r: ClientSubscription)
    ensures
        r@ == subscription_of(
            session@,
            registered(order::views(topics@), session@.topic, session@.id),
        ),
{
    let consumer: Option<&ConsumerSnapshot> = find_registered(
        topics,
        session.topic.as_str(),
        session.id.as_str(),
    );
    let attributes: Attributes = match consumer {
        Some(c) => c.attributes.clone(),
        None => TextMap::new(),
    };
    let own_name: String = match text::strip_prefix(session.id.as_str(), MQTT_PREFIX) {
        Some(rest) => rest.to_string(),
        None => String::new(),
    };
    proof {
        assert(own_name@ =~= mqtt_name(session@.id));
    }
    let name: String = match consumer {
        Some(c) => told_or_known(&c.name, own_name),
        None => own_name,
    };
    let last_seen_at: String = match consumer {
        Some(c) => c.last_seen_at.clone(),
        None => session.connected_at.clone(),
    };
    ClientSubscription {
        id: session.id.clone(),
        name,
        topic: session.topic.clone(),
        protocol: session.protocol,
        version: told_or_known(&session.version, attribute_value(&attributes, "version")),
        host: told_or_known(&session.host, attribute_value(&attributes, "host")),
        attributes,
        connected_at: session.connected_at.clone(),
        last_seen_at,
    }
}

/// The subscriptions that sessions make.
pub open spec fn subscriptions_of(
    sessions: Seq<SessionView>,
    topics: Seq<TopicSnapshotView>,
) -> Seq<SubscriptionView> {
    Seq::new(
        sessions.len(),
        |i: int|
            subscription_of(sessions[i], registered(topics, sessions[i].topic, sessions[i].id)),
    )
}

fn to_subscriptions(sessions: &Vec<SessionInfo>, topics: &[TopicSnapshot]) -> (r: Vec<
    ClientSubscription,
>)
    ensures
        order::views(r@) == subscriptions_of(order::views(sessions@), order::views(topics@)),
{
    let ghost all = order::views(sessions@);
    let ghost target = subscriptions_of(all, order::views(topics@));
    let mut out: Vec<ClientSubscription> = Vec::new();
    let mut i: usize = 0;
    while i < sessions.len()
        invariant
            i <= sessions@.len(),
            out@.len() == i,
            all == order::views(sessions@),
            target == subscriptions_of(all, order::views(topics@)),
            forall|k: int| 0 <= k < i ==> (#[trigger] out@[k])@ == target[k],
        decreases sessions.len() - i,
    {
        proof {
            assert(all[i as int] == sessions@[i as int]@);
        }
        out.push(to_subscription(&sessions[i], topics));
        i = i + 1;
    }
    proof {
        assert(order::views(out@) =~= target);
    }
    out
}

/// By topic, then by id.
pub struct ByTopicAndId;

impl Order<ClientSubscription> for ByTopicAndId {
    open spec fn leq(a: SubscriptionView, b: SubscriptionView) -> bool {
        order::pair_leq((a.topic, a.id), (b.topic, b.id))
    }

    fn at_most(a: &ClientSubscription, b: &ClientSubscription) -> (r: bool) {
        order::pair_at_most(a.topic.as_str(), a.id.as_str(), b.topic.as_str(), b.id.as_str())
    }
}

/// By topic, then by name, then by id.
pub struct ByTopicAndName;

impl Order<ClientSubscription> for ByTopicAndName {
    open spec fn leq(a: SubscriptionView, b: SubscriptionView) -> bool {
        order::triple_leq((a.topic, a.name, a.id), (b.topic, b.name, b.id))
    }

    fn at_most(a: &ClientSubscription, b: &ClientSubscription) -> (r: bool) {
        order::triple_at_most(
            a.topic.as_str(),
            a.name.as_str(),
            a.id.as_str(),
            b.topic.as_str(),
            b.name.as_str(),
            b.id.as_str(),
        )
    }
}

/// By host, then by peer, then by client id.
pub struct ByHost;

impl Order<ClientInfo> for ByHost {
    open spec fn leq(a: ClientView, b: ClientView) -> bool {
        order::triple_leq((a.host, a.peer, a.client_id), (b.host, b.peer, b.client_id))
    }

    fn at_most(a: &ClientInfo, b: &ClientInfo) -> (r: bool) {
        order::triple_at_most(
            a.host.as_str(),
            a.peer.as_str(),
            a.client_id.as_str(),
            b.host.as_str(),
            b.peer.as_str(),
            b.client_id.as_str(),
        )
    }
}

// ----------------------------------------------------- choosing sessions

/// A choice among the sessions.
pub trait Choice {
    spec fn takes(&self, session: SessionView) -> bool;

    fn wants(&self, session: &SessionInfo) -> (r: bool)
        ensures
            r == self.takes(session@),
    ;
}

/// The sessions that are chosen.
pub open spec fn chosen(sessions: Seq<SessionView>, takes: spec_fn(SessionView) -> bool) -> Seq<
    SessionView,
>
    decreases sessions.len(),
{
    if sessions.len() == 0 {
        sessions
    } else {
        let init = chosen(sessions.drop_last(), takes);
        if takes(sessions.last()) {
            init.push(sessions.last())
        } else {
            init
        }
    }
}

pub open spec fn taking<C: Choice>(choice: C) -> spec_fn(SessionView) -> bool {
    |s: SessionView| choice.takes(s)
}

fn choose_sessions<C: Choice>(sessions: &[SessionInfo], choice: &C) -> (r: Vec<SessionInfo>)
    ensures
        order::views(r@) == chosen(order::views(sessions@), taking(*choice)),
{
    let ghost all = order::views(sessions@);
    let ghost takes = taking(*choice);
    let mut out: Vec<SessionInfo> = Vec::new();
    let mut i: usize = 0;
    proof {
        assert(all.take(0) =~= Seq::<SessionView>::empty());
        assert(order::views(out@) =~= chosen(all.take(0), takes));
    }
    while i < sessions.len()
        invariant
            i <= sessions@.len(),
            all == order::views(sessions@),
            takes == taking(*choice),
            order::views(out@) == chosen(all.take(i as int), takes),
        decreases sessions.len() - i,
    {
        let ghost so_far = order::views(out@);
        proof {
            assert(all.take(i + 1).drop_last() =~= all.take(i as int));
            assert(all.take(i + 1).last() == sessions@[i as int]@);
        }
        if choice.wants(&sessions[i]) {
            out.push(sessions[i].clone());
            proof {
                assert(order::views(out@) =~= so_far.push(sessions@[i as int]@));
            }
        }
        i = i + 1;
    }
    proof {
        assert(all.take(all.len() as int) =~= all);
    }
    out
}

/// The sessions under an id.
pub struct UnderId<'a> {
    pub id: &'a str,
}

impl<'a> Choice for UnderId<'a> {
    open spec fn takes(&self, session: SessionView) -> bool {
        session.id == self.id@
    }

    fn wants(&self, session: &SessionInfo) -> (r: bool) {
        text::text_eq(session.id.as_str(), self.id)
    }
}

/// The sessions of a peer.
pub struct OfPeer<'a> {
    pub peer: &'a str,
}

impl<'a> Choice for OfPeer<'a> {
    open spec fn takes(&self, session: SessionView) -> bool {
        session.peer == self.peer@
    }

    fn wants(&self, session: &SessionInfo) -> (r: bool) {
        text::text_eq(session.peer.as_str(), self.peer)
    }
}

/// By what a session is grouped: its host, or its peer where the host is not
/// known.
pub open spec fn group_key(session: SessionView) -> Seq<char> {
    if session.host.len() == 0 {
        "p:"@ + session.peer
    } else {
        "h:"@ + session.host
    }
}

fn grpc_group_key(session: &SessionInfo) -> (r: String)
    ensures
        r@ == group_key(session@),
{
    if session.host.as_str().is_empty() {
        text::joined("p:", session.peer.as_str())
    } else {
        text::joined("h:", session.host.as_str())
    }
}

/// The sessions of a group.
pub struct InGroup<'a> {
    pub key: &'a str,
}

impl<'a> Choice for InGroup<'a> {
    open spec fn takes(&self, session: SessionView) -> bool {
        group_key(session) == self.key@
    }

    fn wants(&self, session: &SessionInfo) -> (r: bool) {
        text::text_eq(grpc_group_key(session).as_str(), self.key)
    }
}

/// Whether a session is that of a connected MQTT client or comes from a gRPC
/// connection.
pub open spec fn of_connection(
    session: SessionView,
    mqtt_clients: Seq<MqttClientView>,
    grpc_clients: Seq<GrpcClientView>,
) -> bool {
    ||| exists|i: int|
        0 <= i < mqtt_clients.len() && session.id == MQTT_PREFIX@ + (
        #[trigger] mqtt_clients[i]).client_id
    ||| exists|i: int| 0 <= i < grpc_clients.len() && session.peer == (#[trigger] grpc_clients[i]).peer
}

/// Whether a subscription is listed under a connection.
pub open spec fn claimed(
    session: SessionView,
    sessions: Seq<SessionView>,
    mqtt_clients: Seq<MqttClientView>,
    grpc_clients: Seq<GrpcClientView>,
) -> bool {
    exists|i: int|
        0 <= i < sessions.len() && (#[trigger] sessions[i]).id == session.id && sessions[i].topic
            == session.topic && of_connection(sessions[i], mqtt_clients, grpc_clients)
}

fn is_of_connection(
    session: &SessionInfo,
    mqtt_clients: &[MqttClientInfo],
    grpc_clients: &[GrpcClientInfo],
) -> (r: bool)
    ensures
        r == of_connection(session@, order::views(mqtt_clients@), order::views(grpc_clients@)),
{
    let ghost mqtt = order::views(mqtt_clients@);
    let ghost grpc = order::views(grpc_clients@);
    let mut i: usize = 0;
    while i < mqtt_clients.len()
        invariant
            i <= mqtt_clients@.len(),
            mqtt == order::views(mqtt_clients@),
            grpc == order::views(grpc_clients@),
            forall|k: int|
                0 <= k < i ==> session@.id != MQTT_PREFIX@ + (#[trigger] mqtt[k]).client_id,
        decreases mqtt_clients.len() - i,
    {
        let id: String = text::joined(MQTT_PREFIX, mqtt_clients[i].client_id.as_str());
        assert(mqtt[i as int] == mqtt_clients@[i as int]@);
        if text::text_eq(session.id.as_str(), id.as_str()) {
            return true;
        }
        i = i + 1;
    }
    let mut j: usize = 0;
    while j < grpc_clients.len()
        invariant
            j <= grpc_clients@.len(),
            grpc == order::views(grpc_clients@),
            forall|k: int| 0 <= k < j ==> session@.peer != (#[trigger] grpc[k]).peer,
        decreases grpc_clients.len() - j,
    {
        assert(grpc[j as int] == grpc_clients@[j as int]@);
        if text::text_eq(session.peer.as_str(), grpc_clients[j].peer.as_str()) {
            return true;
        }
        j = j + 1;
    }
    false
}

/// The subscriptions that are listed under no connection.
pub struct Unclaimed<'a> {
    pub sessions: &'a [SessionInfo],
    pub mqtt_clients: &'a [MqttClientInfo],
    pub grpc_clients: &'a [GrpcClientInfo],
}

impl<'a> Choice for Unclaimed<'a> {
    open spec fn takes(&self, session: SessionView) -> bool {
        !claimed(
            session,
            order::views(self.sessions@),
            order::views(self.mqtt_clients@),
            order::views(self.grpc_clients@),
        )
    }

    fn wants(&self, session: &SessionInfo) -> (r: bool) {
        let ghost all = order::views(self.sessions@);
        let ghost mqtt = order::views(self.mqtt_clients@);
        let ghost grpc = order::views(self.grpc_clients@);
        let mut i: usize = 0;
        while i < self.sessions.len()
            invariant
                i <= self.sessions@.len(),
                all == order::views(self.sessions@),
                mqtt == order::views(self.mqtt_clients@),
                grpc == order::views(self.grpc_clients@),
                forall|k: int|
                    0 <= k < i ==> !((#[trigger] all[k]).id == session@.id && all[k].topic
                        == session@.topic && of_connection(all[k], mqtt, grpc)),
            decreases self.sessions.len() - i,
        {
            assert(all[i as int] == self.sessions@[i as int]@);
            if text::text_eq(self.sessions[i].id.as_str(), session.id.as_str()) && text::text_eq(
                self.sessions[i].topic.as_str(),
                session.topic.as_str(),
            ) && is_of_connection(&self.sessions[i], self.mqtt_clients, self.grpc_clients) {
                return false;
            }
            i = i + 1;
        }
        true
    }
}

// --------------------------------------------------------------- clients

/// The latest of some times; `other` where there is none.
pub open spec fn latest_seen(list: Seq<SubscriptionView>, other: Seq<char>) -> Seq<char>
    decreases list.len(),
{
    if list.len() == 0 {
        other
    } else if list.len() == 1 {
        list[0].last_seen_at
    } else {
        let so_far = latest_seen(list.drop_last(), other);
        if text::text_less(so_far, list.last().last_seen_at) {
            list.last().last_seen_at
        } else {
            so_far
        }
    }
}

/// The earliest time of connection; empty where there is none.
pub open spec fn first_connected(list: Seq<SubscriptionView>) -> Seq<char>
    decreases list.len(),
{
    if list.len() == 0 {
        Seq::empty()
    } else if list.len() == 1 {
        list[0].connected_at
    } else {
        let so_far = first_connected(list.drop_last());
        if text::text_less(list.last().connected_at, so_far) {
            list.last().connected_at
        } else {
            so_far
        }
    }
}

fn latest(list: &Vec<ClientSubscription>, other: &str) -> (r: String)
    ensures
        r@ == latest_seen(order::views(list@), other@),
{
    let ghost all = order::views(list@);
    if list.len() == 0 {
        return other.to_string();
    }
    let mut best: String = list[0].last_seen_at.clone();
    let mut i: usize = 1;
    proof {
        assert(all.take(1)[0] == list@[0]@);
    }
    while i < list.len()
        invariant
            1 <= i <= list@.len(),
            all == order::views(list@),
            best@ == latest_seen(all.take(i as int), other@),
        decreases list.len() - i,
    {
        proof {
            assert(all.take(i + 1).drop_last() =~= all.take(i as int));
            assert(all.take(i + 1).last() == list@[i as int]@);
        }
        if text::less(best.as_str(), list[i].last_seen_at.as_str()) {
            best = list[i].last_seen_at.clone();
        }
        i = i + 1;
    }
    proof {
        assert(all.take(all.len() as int) =~= all);
    }
    best
}

fn earliest(list: &Vec<ClientSubscription>) -> (r: String)
    ensures
        r@ == first_connected(order::views(list@)),
{
    let ghost all = order::views(list@);
    if list.len() == 0 {
        let r: String = String::new();
        assert(r@ =~= Seq::<char>::empty());
        return r;
    }
    let mut best: String = list[0].connected_at.clone();
    let mut i: usize = 1;
    proof {
        assert(all.take(1)[0] == list@[0]@);
    }
    while i < list.len()
        invariant
            1 <= i <= list@.len(),
            all == order::views(list@),
            best@ == first_connected(all.take(i as int)),
        decreases list.len() - i,
    {
        proof {
            assert(all.take(i + 1).drop_last() =~= all.take(i as int));
            assert(all.take(i + 1).last() == list@[i as int]@);
        }
        if text::less(list[i].connected_at.as_str(), best.as_str()) {
            best = list[i].connected_at.clone();
        }
        i = i + 1;
    }
    proof {
        assert(all.take(all.len() as int) =~= all);
    }
    best
}

/// The first of some texts that is not empty; empty where all are.
pub open spec fn first_filled(values: Seq<Seq<char>>) -> Seq<char>
    decreases values.len(),
{
    if values.len() == 0 {
        Seq::empty()
    } else {
        filled_or(first_filled(values.drop_last()), values.last())
    }
}

pub open spec fn versions(list: Seq<SubscriptionView>) -> Seq<Seq<char>> {
    list.map_values(|s: SubscriptionView| s.version)
}

pub open spec fn hosts(list: Seq<SubscriptionView>) -> Seq<Seq<char>> {
    list.map_values(|s: SubscriptionView| s.host)
}

fn first_value(primary: &str, values: &Vec<String>) -> (r: String)
    ensures
        r@ == filled_or(primary@, first_filled(text::texts(values@))),
{
    if !primary.is_empty() {
        return primary.to_string();
    }
    let ghost all = text::texts(values@);
    let mut found: String = String::new();
    let mut i: usize = 0;
    proof {
        assert(found@ =~= Seq::<char>::empty());
    }
    while i < values.len()
        invariant
            i <= values@.len(),
            all == text::texts(values@),
            found@ == first_filled(all.take(i as int)),
        decreases values.len() - i,
    {
        proof {
            assert(all.take(i + 1).drop_last() =~= all.take(i as int));
            assert(all.take(i + 1).last() == values@[i as int]@);
        }
        found = told_or_known(&found, values[i].clone());
        i = i + 1;
    }
    proof {
        assert(all.take(all.len() as int) =~= all);
    }
    found
}

fn versions_in(list: &Vec<ClientSubscription>) -> (r: Vec<String>)
    ensures
        text::texts(r@) == versions(order::views(list@)),
{
    let mut out: Vec<String> = Vec::new();
    let mut i: usize = 0;
    while i < list.len()
        invariant
            i <= list@.len(),
            out@.len() == i,
            forall|k: int| 0 <= k < i ==> (#[trigger] out@[k])@ == list@[k]@.version,
        decreases list.len() - i,
    {
        out.push(list[i].version.clone());
        i = i + 1;
    }
    proof {
        assert(text::texts(out@) =~= versions(order::views(list@)));
    }
    out
}

fn hosts_in(list: &Vec<ClientSubscription>) -> (r: Vec<String>)
    ensures
        text::texts(r@) == hosts(order::views(list@)),
{
    let mut out: Vec<String> = Vec::new();
    let mut i: usize = 0;
    while i < list.len()
        invariant
            i <= list@.len(),
            out@.len() == i,
            forall|k: int| 0 <= k < i ==> (#[trigger] out@[k])@ == list@[k]@.host,
        decreases list.len() - i,
    {
        out.push(list[i].host.clone());
        i = i + 1;
    }
    proof {
        assert(text::texts(out@) =~= hosts(order::views(list@)));
    }
    out
}

/// What a client is beside its subscriptions.
pub struct Identity {
    pub peer: Seq<char>,
    pub protocol: Seq<char>,
    pub client_id: Seq<char>,
    pub version: Seq<char>,
    pub host: Seq<char>,
    pub connected_at: Seq<char>,
}

/// A connected client with its subscriptions. The version and the host that the
/// client did not tell are those of its first subscription that has one.
pub open spec fn client_of(who: Identity, subscriptions: Seq<SubscriptionView>) -> ClientView {
    ClientView {
        peer: who.peer,
        protocol: who.protocol,
        client_id: who.client_id,
        version: filled_or(who.version, first_filled(versions(subscriptions))),
        host: filled_or(who.host, first_filled(hosts(subscriptions))),
        streams: subscriptions.len(),
        connected_at: who.connected_at,
        last_seen_at: latest_seen(subscriptions, who.connected_at),
        subscriptions,
    }
}

fn to_client(
    peer: &str,
    protocol: &'static str,
    client_id: &str,
    version: &str,
    host: &str,
    connected_at: &str,
    subscriptions: Vec<ClientSubscription>,
) -> (r: ClientInfo)
    ensures
        r@ == client_of(
            (Identity {
                peer: peer@,
                protocol: protocol@,
                client_id: client_id@,
                version: version@,
                host: host@,
                connected_at: connected_at@,
            }),
            order::views(subscriptions@),
        ),
{
    ClientInfo {
        peer: peer.to_string(),
        protocol,
        client_id: client_id.to_string(),
        version: first_value(version, &versions_in(&subscriptions)),
        host: first_value(host, &hosts_in(&subscriptions)),
        streams: subscriptions.len(),
        connected_at: connected_at.to_string(),
        last_seen_at: latest(&subscriptions, connected_at),
        subscriptions,
    }
}

/// The order of subscriptions by topic and id.
pub open spec fn by_topic_and_id() -> spec_fn(SubscriptionView, SubscriptionView) -> bool {
    order::relation::<ClientSubscription, ByTopicAndId>()
}

/// The order of subscriptions by topic, name and id.
pub open spec fn by_topic_and_name() -> spec_fn(SubscriptionView, SubscriptionView) -> bool {
    order::relation::<ClientSubscription, ByTopicAndName>()
}

/// The sessions under the id of the session of an MQTT client.
pub open spec fn of_mqtt(client: MqttClientView) -> spec_fn(SessionView) -> bool {
    |s: SessionView| s.id == MQTT_PREFIX@ + client.client_id
}

/// The sessions that come from a gRPC connection.
pub open spec fn of_grpc(client: GrpcClientView) -> spec_fn(SessionView) -> bool {
    |s: SessionView| s.peer == client.peer
}

/// The sessions of a group.
pub open spec fn of_group(key: Seq<char>) -> spec_fn(SessionView) -> bool {
    |s: SessionView| group_key(s) == key
}

pub open spec fn mqtt_client(
    client: MqttClientView,
    sessions: Seq<SessionView>,
    topics: Seq<TopicSnapshotView>,
) -> ClientView {
    client_of(
        Identity {
            peer: client.peer,
            protocol: client.transport,
            client_id: client.client_id,
            version: client.version,
            host: Seq::empty(),
            connected_at: client.connected_at,
        },
        order::ordered(
            subscriptions_of(chosen(sessions, of_mqtt(client)), topics),
            by_topic_and_id(),
        ),
    )
}

pub open spec fn grpc_client(
    client: GrpcClientView,
    sessions: Seq<SessionView>,
    topics: Seq<TopicSnapshotView>,
) -> ClientView {
    client_of(
        Identity {
            peer: client.peer,
            protocol: "grpc"@,
            client_id: Seq::empty(),
            version: client.version,
            host: client.host,
            connected_at: client.connected_at,
        },
        order::ordered(
            subscriptions_of(chosen(sessions, of_grpc(client)), topics),
            by_topic_and_id(),
        ),
    )
}

/// What the sessions of a group make, under the peer of the first of them.
pub open spec fn group_client(
    key: Seq<char>,
    rest: Seq<SessionView>,
    topics: Seq<TopicSnapshotView>,
) -> ClientView {
    let members = chosen(rest, of_group(key));
    let subscriptions = order::ordered(subscriptions_of(members, topics), by_topic_and_name());
    client_of(
        Identity {
            peer: members.first().peer,
            protocol: subscriptions.first().protocol,
            client_id: Seq::empty(),
            version: Seq::empty(),
            host: Seq::empty(),
            connected_at: first_connected(subscriptions),
        },
        subscriptions,
    )
}

/// The groups of some sessions, in the order in which they first occur.
pub open spec fn group_keys(sessions: Seq<SessionView>) -> Seq<Seq<char>>
    decreases sessions.len(),
{
    if sessions.len() == 0 {
        Seq::empty()
    } else {
        let so_far = group_keys(sessions.drop_last());
        if so_far.contains(group_key(sessions.last())) {
            so_far
        } else {
            so_far.push(group_key(sessions.last()))
        }
    }
}

/// The sessions that are listed under no connection.
pub open spec fn unclaimed(
    sessions: Seq<SessionView>,
    mqtt_clients: Seq<MqttClientView>,
    grpc_clients: Seq<GrpcClientView>,
) -> Seq<SessionView> {
    chosen(sessions, |s: SessionView| !claimed(s, sessions, mqtt_clients, grpc_clients))
}

/// The connected clients, before they are ordered.
pub open spec fn clients_found(
    sessions: Seq<SessionView>,
    mqtt_clients: Seq<MqttClientView>,
    grpc_clients: Seq<GrpcClientView>,
    topics: Seq<TopicSnapshotView>,
) -> Seq<ClientView> {
    let rest = unclaimed(sessions, mqtt_clients, grpc_clients);
    let keys = group_keys(rest);
    Seq::new(mqtt_clients.len(), |i: int| mqtt_client(mqtt_clients[i], sessions, topics))
        + Seq::new(grpc_clients.len(), |i: int| grpc_client(grpc_clients[i], sessions, topics))
        + Seq::new(keys.len(), |i: int| group_client(keys[i], rest, topics))
}

/// The connected clients, by host, peer and client id.
pub open spec fn clients_listed(
    sessions: Seq<SessionView>,
    mqtt_clients: Seq<MqttClientView>,
    grpc_clients: Seq<GrpcClientView>,
    topics: Seq<TopicSnapshotView>,
) -> Seq<ClientView> {
    order::ordered(
        clients_found(sessions, mqtt_clients, grpc_clients, topics),
        order::relation::<ClientInfo, ByHost>(),
    )
}

fn to_mqtt_client(
    client: &MqttClientInfo,
    sessions: &[SessionInfo],
    topics: &[TopicSnapshot],
) -> (r: ClientInfo)
    ensures
        r@ == mqtt_client(client@, order::views(sessions@), order::views(topics@)),
{
    let id: String = text::joined(MQTT_PREFIX, client.client_id.as_str());
    let choice: UnderId = UnderId { id: id.as_str() };
    proof {
        assert(taking(choice) =~= of_mqtt(client@));
        reveal_strlit("");
        assert(""@ =~= Seq::<char>::empty());
    }
    let members: Vec<SessionInfo> = choose_sessions(sessions, &choice);
    let subscriptions: Vec<ClientSubscription> = order::sort::<ClientSubscription, ByTopicAndId>(
        to_subscriptions(&members, topics),
    );
    to_client(
        client.peer.as_str(),
        client.transport,
        client.client_id.as_str(),
        client.version.as_str(),
        "",
        client.connected_at.as_str(),
        subscriptions,
    )
}

fn to_grpc_client(
    client: &GrpcClientInfo,
    sessions: &[SessionInfo],
    topics: &[TopicSnapshot],
) -> (r: ClientInfo)
    ensures
        r@ == grpc_client(client@, order::views(sessions@), order::views(topics@)),
{
    let choice: OfPeer = OfPeer { peer: client.peer.as_str() };
    proof {
        assert(taking(choice) =~= of_grpc(client@));
        reveal_strlit("");
        assert(""@ =~= Seq::<char>::empty());
    }
    let members: Vec<SessionInfo> = choose_sessions(sessions, &choice);
    let subscriptions: Vec<ClientSubscription> = order::sort::<ClientSubscription, ByTopicAndId>(
        to_subscriptions(&members, topics),
    );
    to_client(
        client.peer.as_str(),
        "grpc",
        "",
        client.version.as_str(),
        client.host.as_str(),
        client.connected_at.as_str(),
        subscriptions,
    )
}

fn to_group_client(key: &str, rest: &Vec<SessionInfo>, topics: &[TopicSnapshot]) -> (r: ClientInfo)
    requires
        chosen(order::views(rest@), of_group(key@)).len() > 0,
    ensures
        r@ == group_client(key@, order::views(rest@), order::views(topics@)),
{
    let choice: InGroup = InGroup { key };
    proof {
        assert(taking(choice) =~= of_group(key@));
        reveal_strlit("");
        assert(""@ =~= Seq::<char>::empty());
    }
    let members: Vec<SessionInfo> = choose_sessions(rest.as_slice(), &choice);
    let found: Vec<ClientSubscription> = to_subscriptions(&members, topics);
    let ghost found_views = order::views(found@);
    let subscriptions: Vec<ClientSubscription> = order::sort::<ClientSubscription, ByTopicAndName>(
        found,
    );
    let ghost listed = order::views(subscriptions@);
    proof {
        order::lemma_ordered_len(found_views, by_topic_and_name());
        assert(listed[0] == subscriptions@[0]@);
        assert(order::views(members@)[0] == members@[0]@);
    }
    let connected_at: String = earliest(&subscriptions);
    let protocol: &'static str = subscriptions[0].protocol;
    to_client(
        members[0].peer.as_str(),
        protocol,
        "",
        "",
        "",
        connected_at.as_str(),
        subscriptions,
    )
}

fn to_group_keys(sessions: &Vec<SessionInfo>) -> (r: Vec<String>)
    ensures
        text::texts(r@) == group_keys(order::views(sessions@)),
{
    let ghost all = order::views(sessions@);
    let mut keys: Vec<String> = Vec::new();
    let mut i: usize = 0;
    proof {
        assert(text::texts(keys@) =~= group_keys(all.take(0)));
    }
    while i < sessions.len()
        invariant
            i <= sessions@.len(),
            all == order::views(sessions@),
            text::texts(keys@) == group_keys(all.take(i as int)),
        decreases sessions.len() - i,
    {
        let ghost so_far = text::texts(keys@);
        proof {
            assert(all.take(i + 1).drop_last() =~= all.take(i as int));
            assert(all.take(i + 1).last() == sessions@[i as int]@);
        }
        let key: String = grpc_group_key(&sessions[i]);
        if !text::contains_text(&keys, key.as_str()) {
            keys.push(key);
            proof {
                assert(text::texts(keys@) =~= so_far.push(key@));
            }
        }
        i = i + 1;
    }
    proof {
        assert(all.take(all.len() as int) =~= all);
    }
    keys
}

/// A group has a session.
proof fn lemma_group_has_member(sessions: Seq<SessionView>, key: Seq<char>)
    requires
        group_keys(sessions).contains(key),
    ensures
        chosen(sessions, of_group(key)).len() > 0,
    decreases sessions.len(),
{
    let last = sessions.last();
    let so_far = group_keys(sessions.drop_last());
    if group_key(last) != key {
        if !so_far.contains(group_key(last)) {
            let all = so_far.push(group_key(last));
            let k = all.index_of(key);
            assert(so_far[k] == key);
        }
        lemma_group_has_member(sessions.drop_last(), key);
    }
}

/// The connected clients with their subscriptions.
pub fn connected_clients(
    sessions: &[SessionInfo],
    mqtt_clients: &[MqttClientInfo],
    grpc_clients: &[GrpcClientInfo],
    topics: &[TopicSnapshot],
) -> (r: Vec<ClientInfo>)
    ensures
        order::views(r@) == clients_listed(
            order::views(sessions@),
            order::views(mqtt_clients@),
            order::views(grpc_clients@),
            order::views(topics@),
        ),
{
    let ghost all = order::views(sessions@);
    let ghost mqtt = order::views(mqtt_clients@);
    let ghost grpc = order::views(grpc_clients@);
    let ghost known = order::views(topics@);
    let ghost rest_views = unclaimed(all, mqtt, grpc);
    let ghost target = clients_found(all, mqtt, grpc, known);
    let mut out: Vec<ClientInfo> = Vec::new();
    let mut i: usize = 0;
    while i < mqtt_clients.len()
        invariant
            i <= mqtt_clients@.len(),
            out@.len() == i,
            all == order::views(sessions@),
            mqtt == order::views(mqtt_clients@),
            known == order::views(topics@),
            target == clients_found(all, mqtt, grpc, known),
            forall|k: int| 0 <= k < i ==> (#[trigger] out@[k])@ == target[k],
        decreases mqtt_clients.len() - i,
    {
        assert(mqtt[i as int] == mqtt_clients@[i as int]@);
        out.push(to_mqtt_client(&mqtt_clients[i], sessions, topics));
        i = i + 1;
    }
    let mut j: usize = 0;
    while j < grpc_clients.len()
        invariant
            j <= grpc_clients@.len(),
            out@.len() == mqtt.len() + j,
            all == order::views(sessions@),
            mqtt == order::views(mqtt_clients@),
            grpc == order::views(grpc_clients@),
            known == order::views(topics@),
            target == clients_found(all, mqtt, grpc, known),
            forall|k: int| 0 <= k < out@.len() ==> (#[trigger] out@[k])@ == target[k],
        decreases grpc_clients.len() - j,
    {
        assert(grpc[j as int] == grpc_clients@[j as int]@);
        out.push(to_grpc_client(&grpc_clients[j], sessions, topics));
        j = j + 1;
    }
    let choice: Unclaimed = Unclaimed { sessions, mqtt_clients, grpc_clients };
    proof {
        assert(taking(choice) =~= (|s: SessionView| !claimed(s, all, mqtt, grpc)));
    }
    let rest: Vec<SessionInfo> = choose_sessions(sessions, &choice);
    let keys: Vec<String> = to_group_keys(&rest);
    let ghost groups = group_keys(rest_views);
    let mut g: usize = 0;
    while g < keys.len()
        invariant
            g <= keys@.len(),
            out@.len() == mqtt.len() + grpc.len() + g,
            known == order::views(topics@),
            rest_views == unclaimed(all, mqtt, grpc),
            rest_views == order::views(rest@),
            groups == group_keys(rest_views),
            groups == text::texts(keys@),
            target == clients_found(all, mqtt, grpc, known),
            forall|k: int| 0 <= k < out@.len() ==> (#[trigger] out@[k])@ == target[k],
        decreases keys.len() - g,
    {
        proof {
            assert(groups[g as int] == keys@[g as int]@);
            assert(groups.contains(groups[g as int]));
            lemma_group_has_member(rest_views, groups[g as int]);
        }
        out.push(to_group_client(keys[g].as_str(), &rest, topics));
        g = g + 1;
    }
    proof {
        assert(order::views(out@) =~= target);
    }
    order::sort::<ClientInfo, ByHost>(out)
}

proof fn lemma_chosen_holds(
    sessions: Seq<SessionView>,
    takes: spec_fn(SessionView) -> bool,
    session: SessionView,
)
    requires
        sessions.contains(session),
        takes(session),
    ensures
        chosen(sessions, takes).contains(session),
    decreases sessions.len(),
{
    let init = sessions.drop_last();
    let out = chosen(sessions, takes);
    if session == sessions.last() {
        assert(out.last() == session);
    } else {
        assert(init[sessions.index_of(session)] == session);
        lemma_chosen_holds(init, takes, session);
        let before = chosen(init, takes);
        assert(out[before.index_of(session)] == session);
    }
}

proof fn lemma_group_is_listed(sessions: Seq<SessionView>, session: SessionView)
    requires
        sessions.contains(session),
    ensures
        group_keys(sessions).contains(group_key(session)),
    decreases sessions.len(),
{
    let init = sessions.drop_last();
    let so_far = group_keys(init);
    let out = group_keys(sessions);
    if session == sessions.last() {
        if !so_far.contains(group_key(session)) {
            assert(out.last() == group_key(session));
        }
    } else {
        assert(init[sessions.index_of(session)] == session);
        lemma_group_is_listed(init, session);
        assert(out[so_far.index_of(group_key(session))] == group_key(session));
    }
}

proof fn lemma_member_is_listed(
    sessions: Seq<SessionView>,
    takes: spec_fn(SessionView) -> bool,
    topics: Seq<TopicSnapshotView>,
    leq: spec_fn(SubscriptionView, SubscriptionView) -> bool,
    session: SessionView,
)
    requires
        sessions.contains(session),
        takes(session),
    ensures
        order::ordered(subscriptions_of(chosen(sessions, takes), topics), leq).contains(
            subscription_of(session, registered(topics, session.topic, session.id)),
        ),
{
    let members = chosen(sessions, takes);
    lemma_chosen_holds(sessions, takes, session);
    let i = members.index_of(session);
    let subscriptions = subscriptions_of(members, topics);
    let wanted = subscription_of(session, registered(topics, session.topic, session.id));
    assert(subscriptions[i] == wanted);
    order::lemma_ordered_holds(subscriptions, leq, wanted);
}

/// Whether a client holds a subscription.
pub open spec fn lists(
    clients: Seq<ClientView>,
    subscription: SubscriptionView,
) -> bool {
    exists|i: int|
        0 <= i < clients.len() && (#[trigger] clients[i]).subscriptions.contains(subscription)
}

/// No live subscription is lost: each is listed under a connected client.
pub proof fn law_every_subscription_is_listed(
    sessions: Seq<SessionView>,
    mqtt_clients: Seq<MqttClientView>,
    grpc_clients: Seq<GrpcClientView>,
    topics: Seq<TopicSnapshotView>,
    session: SessionView,
)
    requires
        sessions.contains(session),
        distinct_sessions(sessions),
    ensures
        lists(
            clients_listed(sessions, mqtt_clients, grpc_clients, topics),
            subscription_of(session, registered(topics, session.topic, session.id)),
        ),
{
    let wanted = subscription_of(session, registered(topics, session.topic, session.id));
    let found = clients_found(sessions, mqtt_clients, grpc_clients, topics);
    let rest = unclaimed(sessions, mqtt_clients, grpc_clients);
    let keys = group_keys(rest);
    let m = mqtt_clients.len();
    let g = grpc_clients.len();
    let at = sessions.index_of(session);
    let place: int = if exists|i: int|
        0 <= i < m && session.id == MQTT_PREFIX@ + (#[trigger] mqtt_clients[i]).client_id {
        let i = choose|i: int|
            0 <= i < m && session.id == MQTT_PREFIX@ + (#[trigger] mqtt_clients[i]).client_id;
        lemma_member_is_listed(
            sessions,
            of_mqtt(mqtt_clients[i]),
            topics,
            by_topic_and_id(),
            session,
        );
        assert(found[i] == mqtt_client(mqtt_clients[i], sessions, topics));
        i
    } else if exists|i: int| 0 <= i < g && session.peer == (#[trigger] grpc_clients[i]).peer {
        let i = choose|i: int| 0 <= i < g && session.peer == (#[trigger] grpc_clients[i]).peer;
        lemma_member_is_listed(
            sessions,
            of_grpc(grpc_clients[i]),
            topics,
            by_topic_and_id(),
            session,
        );
        assert(found[m + i] == grpc_client(grpc_clients[i], sessions, topics));
        m + i
    } else {
        assert(!of_connection(session, mqtt_clients, grpc_clients));
        assert(!claimed(session, sessions, mqtt_clients, grpc_clients)) by {
            if claimed(session, sessions, mqtt_clients, grpc_clients) {
                let k = choose|k: int|
                    0 <= k < sessions.len() && (#[trigger] sessions[k]).id == session.id
                        && sessions[k].topic == session.topic && of_connection(
                        sessions[k],
                        mqtt_clients,
                        grpc_clients,
                    );
                assert(sessions[at] == session);
                assert(k == at);
            }
        }
        lemma_chosen_holds(
            sessions,
            |s: SessionView| !claimed(s, sessions, mqtt_clients, grpc_clients),
            session,
        );
        assert(rest.contains(session));
        lemma_group_is_listed(rest, session);
        let i = keys.index_of(group_key(session));
        lemma_member_is_listed(rest, of_group(keys[i]), topics, by_topic_and_name(), session);
        assert(found[m + g + i] == group_client(keys[i], rest, topics));
        m + g + i
    };
    assert(found[place].subscriptions.contains(wanted));
    let leq = order::relation::<ClientInfo, ByHost>();
    assert(found.contains(found[place]));
    order::lemma_ordered_holds(found, leq, found[place]);
    let listed = clients_listed(sessions, mqtt_clients, grpc_clients, topics);
    let k = listed.index_of(found[place]);
    assert(listed[k].subscriptions.contains(wanted));
}

/// How many of the subscriptions are of the topic and under the id.
pub open spec fn entries(list: Seq<SubscriptionView>, topic: Seq<char>, id: Seq<char>) -> int
    decreases list.len(),
{
    if list.len() == 0 {
        0
    } else {
        entries(list.drop_last(), topic, id) + if list.last().topic == topic && list.last().id
            == id {
            1int
        } else {
            0int
        }
    }
}

/// How often a subscription to the topic under the id is listed among the clients.
pub open spec fn times_listed(clients: Seq<ClientView>, topic: Seq<char>, id: Seq<char>) -> int
    decreases clients.len(),
{
    if clients.len() == 0 {
        0
    } else {
        times_listed(clients.drop_last(), topic, id) + entries(
            clients.last().subscriptions,
            topic,
            id,
        )
    }
}

proof fn lemma_entries_placed(
    list: Seq<SubscriptionView>,
    x: SubscriptionView,
    leq: spec_fn(SubscriptionView, SubscriptionView) -> bool,
    topic: Seq<char>,
    id: Seq<char>,
)
    ensures
        entries(order::placed(list, x, leq), topic, id) == entries(list.push(x), topic, id),
    decreases list.len(),
{
    assert(list.push(x).drop_last() =~= list);
    if list.len() > 0 && !leq(list.last(), x) {
        let init = list.drop_last();
        reveal_with_fuel(entries, 2);
        lemma_entries_placed(init, x, leq, topic, id);
        assert(init.push(x).drop_last() =~= init);
        assert(order::placed(list, x, leq).drop_last() =~= order::placed(init, x, leq));
    }
}

proof fn lemma_entries_ordered(
    list: Seq<SubscriptionView>,
    leq: spec_fn(SubscriptionView, SubscriptionView) -> bool,
    topic: Seq<char>,
    id: Seq<char>,
)
    ensures
        entries(order::ordered(list, leq), topic, id) == entries(list, topic, id),
    decreases list.len(),
{
    if list.len() > 0 {
        let init = order::ordered(list.drop_last(), leq);
        lemma_entries_ordered(list.drop_last(), leq, topic, id);
        lemma_entries_placed(init, list.last(), leq, topic, id);
        assert(init.push(list.last()).drop_last() =~= init);
    }
}

proof fn lemma_times_placed(
    list: Seq<ClientView>,
    x: ClientView,
    leq: spec_fn(ClientView, ClientView) -> bool,
    topic: Seq<char>,
    id: Seq<char>,
)
    ensures
        times_listed(order::placed(list, x, leq), topic, id) == times_listed(
            list.push(x),
            topic,
            id,
        ),
    decreases list.len(),
{
    assert(list.push(x).drop_last() =~= list);
    if list.len() > 0 && !leq(list.last(), x) {
        let init = list.drop_last();
        reveal_with_fuel(times_listed, 2);
        lemma_times_placed(init, x, leq, topic, id);
        assert(init.push(x).drop_last() =~= init);
        assert(order::placed(list, x, leq).drop_last() =~= order::placed(init, x, leq));
    }
}

proof fn lemma_times_ordered(
    list: Seq<ClientView>,
    leq: spec_fn(ClientView, ClientView) -> bool,
    topic: Seq<char>,
    id: Seq<char>,
)
    ensures
        times_listed(order::ordered(list, leq), topic, id) == times_listed(list, topic, id),
    decreases list.len(),
{
    if list.len() > 0 {
        let init = order::ordered(list.drop_last(), leq);
        lemma_times_ordered(list.drop_last(), leq, topic, id);
        lemma_times_placed(init, list.last(), leq, topic, id);
        assert(init.push(list.last()).drop_last() =~= init);
    }
}

proof fn lemma_times_joined(
    a: Seq<ClientView>,
    b: Seq<ClientView>,
    topic: Seq<char>,
    id: Seq<char>,
)
    ensures
        times_listed(a + b, topic, id) == times_listed(a, topic, id) + times_listed(b, topic, id),
    decreases b.len(),
{
    if b.len() == 0 {
        assert(a + b =~= a);
    } else {
        lemma_times_joined(a, b.drop_last(), topic, id);
        assert((a + b).drop_last() =~= a + b.drop_last());
    }
}

proof fn lemma_never_listed(clients: Seq<ClientView>, topic: Seq<char>, id: Seq<char>)
    requires
        forall|i: int|
            0 <= i < clients.len() ==> entries(
                (#[trigger] clients[i]).subscriptions,
                topic,
                id,
            ) == 0,
    ensures
        times_listed(clients, topic, id) == 0,
    decreases clients.len(),
{
    if clients.len() > 0 {
        let init = clients.drop_last();
        assert forall|i: int| 0 <= i < init.len() implies entries(
            (#[trigger] init[i]).subscriptions,
            topic,
            id,
        ) == 0 by {
            assert(clients[i] == init[i]);
        }
        lemma_never_listed(init, topic, id);
        assert(entries(clients[clients.len() - 1].subscriptions, topic, id) == 0);
    }
}

/// Topic and id occur together once.
pub open spec fn distinct_sessions(sessions: Seq<SessionView>) -> bool {
    forall|i: int, j: int|
        0 <= i < j < sessions.len() ==> ((#[trigger] sessions[i]).topic, sessions[i].id) != ((
        #[trigger] sessions[j]).topic, sessions[j].id)
}

/// Among chosen sessions with distinct topics and ids, a session is listed once if
/// it is chosen.
proof fn lemma_chosen_entries(
    sessions: Seq<SessionView>,
    takes: spec_fn(SessionView) -> bool,
    topics: Seq<TopicSnapshotView>,
    session: SessionView,
)
    requires
        distinct_sessions(sessions),
        forall|i: int|
            0 <= i < sessions.len() && (#[trigger] sessions[i]).topic == session.topic
                && sessions[i].id == session.id ==> sessions[i] == session,
    ensures
        entries(
            subscriptions_of(chosen(sessions, takes), topics),
            session.topic,
            session.id,
        ) == (if sessions.contains(session) && takes(session) {
            1int
        } else {
            0int
        }),
    decreases sessions.len(),
{
    if sessions.len() > 0 {
        let init = sessions.drop_last();
        let last = sessions.last();
        assert forall|i: int|
            0 <= i < init.len() && (#[trigger] init[i]).topic == session.topic && init[i].id
                == session.id implies init[i] == session by {
            assert(sessions[i] == init[i]);
        }
        assert(distinct_sessions(init)) by {
            assert forall|i: int, j: int| 0 <= i < j < init.len() implies ((
            #[trigger] init[i]).topic, init[i].id) != ((#[trigger] init[j]).topic, init[j].id) by {
                assert(sessions[i] == init[i] && sessions[j] == init[j]);
            }
        }
        lemma_chosen_entries(init, takes, topics, session);
        let some = chosen(init, takes);
        if takes(last) {
            assert(subscriptions_of(some.push(last), topics).drop_last() =~= subscriptions_of(
                some,
                topics,
            ));
        }
        let own = last.topic == session.topic && last.id == session.id;
        if own {
            assert(sessions[sessions.len() - 1] == session);
            if init.contains(session) {
                let i = init.index_of(session);
                assert(sessions[i] == session);
            }
        } else {
            if sessions.contains(session) {
                assert(init[sessions.index_of(session)] == session);
            }
            if init.contains(session) {
                assert(sessions[init.index_of(session)] == session);
            }
        }
        assert(sessions.contains(session) <==> init.contains(session) || own);
    } else {
        assert(subscriptions_of(chosen(sessions, takes), topics) =~= Seq::empty());
    }
}

proof fn lemma_chosen_twice(
    sessions: Seq<SessionView>,
    first: spec_fn(SessionView) -> bool,
    second: spec_fn(SessionView) -> bool,
    both: spec_fn(SessionView) -> bool,
)
    requires
        forall|s: SessionView| #[trigger] both(s) <==> first(s) && second(s),
    ensures
        chosen(chosen(sessions, first), second) == chosen(sessions, both),
    decreases sessions.len(),
{
    if sessions.len() > 0 {
        lemma_chosen_twice(sessions.drop_last(), first, second, both);
        let init = chosen(sessions.drop_last(), first);
        assert(both(sessions.last()) <==> first(sessions.last()) && second(sessions.last()));
        assert(init.push(sessions.last()).drop_last() =~= init);
    }
}

proof fn lemma_group_keys_distinct(sessions: Seq<SessionView>)
    ensures
        group_keys(sessions).no_duplicates(),
    decreases sessions.len(),
{
    if sessions.len() > 0 {
        lemma_group_keys_distinct(sessions.drop_last());
    }
}

/// The clients of the first `n` groups list a session once, if its group is one of
/// them.
proof fn lemma_groups_list(
    sessions: Seq<SessionView>,
    mqtt_clients: Seq<MqttClientView>,
    grpc_clients: Seq<GrpcClientView>,
    topics: Seq<TopicSnapshotView>,
    session: SessionView,
    n: int,
)
    requires
        distinct_sessions(sessions),
        sessions.contains(session),
        !claimed(session, sessions, mqtt_clients, grpc_clients),
        0 <= n <= group_keys(unclaimed(sessions, mqtt_clients, grpc_clients)).len(),
    ensures
        ({
            let rest = unclaimed(sessions, mqtt_clients, grpc_clients);
            let keys = group_keys(rest);
            times_listed(
                Seq::new(n as nat, |i: int| group_client(keys[i], rest, topics)),
                session.topic,
                session.id,
            ) == (if keys.take(n).contains(group_key(session)) {
                1int
            } else {
                0int
            })
        }),
    decreases n,
{
    let free = |s: SessionView| !claimed(s, sessions, mqtt_clients, grpc_clients);
    let rest = unclaimed(sessions, mqtt_clients, grpc_clients);
    let keys = group_keys(rest);
    let list = Seq::new(n as nat, |i: int| group_client(keys[i], rest, topics));
    let own = group_key(session);
    if n > 0 {
        let init = Seq::new((n - 1) as nat, |i: int| group_client(keys[i], rest, topics));
        lemma_groups_list(sessions, mqtt_clients, grpc_clients, topics, session, n - 1);
        assert(list.drop_last() =~= init);
        let key = keys[n - 1];
        let both = |s: SessionView| free(s) && of_group(key)(s);
        lemma_chosen_twice(sessions, free, of_group(key), both);
        let at = sessions.index_of(session);
        assert forall|i: int|
            0 <= i < sessions.len() && (#[trigger] sessions[i]).topic == session.topic
                && sessions[i].id == session.id implies sessions[i] == session by {
            assert(sessions[at] == session);
            if i < at {
                assert((sessions[i].topic, sessions[i].id) != (sessions[at].topic, sessions[at].id));
            } else if at < i {
                assert((sessions[at].topic, sessions[at].id) != (sessions[i].topic, sessions[i].id));
            }
        }
        lemma_chosen_entries(sessions, both, topics, session);
        lemma_entries_ordered(
            subscriptions_of(chosen(rest, of_group(key)), topics),
            by_topic_and_name(),
            session.topic,
            session.id,
        );
        assert(list.last() == group_client(key, rest, topics));
        lemma_group_keys_distinct(rest);
        let before = keys.take(n - 1);
        let now = keys.take(n);
        assert(now[n - 1] == key);
        if before.contains(own) {
            let i = before.index_of(own);
            assert(now[i] == own);
            assert(keys[i] == own);
            assert(key != own);
        }
        if now.contains(own) && key != own {
            assert(before[now.index_of(own)] == own);
        }
    } else {
        assert(keys.take(0) =~= Seq::empty());
        assert(list =~= Seq::empty());
    }
}

/// A session that belongs to no connection is listed exactly once among all
/// clients.
pub proof fn law_a_lone_session_is_listed_once(
    sessions: Seq<SessionView>,
    mqtt_clients: Seq<MqttClientView>,
    grpc_clients: Seq<GrpcClientView>,
    topics: Seq<TopicSnapshotView>,
    session: SessionView,
)
    requires
        sessions.contains(session),
        distinct_sessions(sessions),
        !of_connection(session, mqtt_clients, grpc_clients),
    ensures
        times_listed(
            clients_listed(sessions, mqtt_clients, grpc_clients, topics),
            session.topic,
            session.id,
        ) == 1,
{
    let t = session.topic;
    let id = session.id;
    let rest = unclaimed(sessions, mqtt_clients, grpc_clients);
    let keys = group_keys(rest);
    let at = sessions.index_of(session);
    let a = Seq::new(mqtt_clients.len(), |i: int| mqtt_client(mqtt_clients[i], sessions, topics));
    let b = Seq::new(grpc_clients.len(), |i: int| grpc_client(grpc_clients[i], sessions, topics));
    let c = Seq::new(keys.len(), |i: int| group_client(keys[i], rest, topics));
    assert(sessions[at] == session);
    assert forall|i: int|
        0 <= i < sessions.len() && (#[trigger] sessions[i]).topic == t && sessions[i].id
            == id implies sessions[i] == session by {
        if i < at {
            assert((sessions[i].topic, sessions[i].id) != (sessions[at].topic, sessions[at].id));
        } else if at < i {
            assert((sessions[at].topic, sessions[at].id) != (sessions[i].topic, sessions[i].id));
        }
    }
    assert forall|i: int| 0 <= i < a.len() implies entries(
        (#[trigger] a[i]).subscriptions,
        t,
        id,
    ) == 0 by {
        let takes = of_mqtt(mqtt_clients[i]);
        lemma_chosen_entries(sessions, takes, topics, session);
        lemma_entries_ordered(
            subscriptions_of(chosen(sessions, takes), topics),
            by_topic_and_id(),
            t,
            id,
        );
        assert(!takes(session));
    }
    assert forall|i: int| 0 <= i < b.len() implies entries(
        (#[trigger] b[i]).subscriptions,
        t,
        id,
    ) == 0 by {
        let takes = of_grpc(grpc_clients[i]);
        lemma_chosen_entries(sessions, takes, topics, session);
        lemma_entries_ordered(
            subscriptions_of(chosen(sessions, takes), topics),
            by_topic_and_id(),
            t,
            id,
        );
        assert(!takes(session));
    }
    lemma_never_listed(a, t, id);
    lemma_never_listed(b, t, id);
    assert(!claimed(session, sessions, mqtt_clients, grpc_clients));
    lemma_groups_list(
        sessions,
        mqtt_clients,
        grpc_clients,
        topics,
        session,
        keys.len() as int,
    );
    lemma_chosen_holds(
        sessions,
        |s: SessionView| !claimed(s, sessions, mqtt_clients, grpc_clients),
        session,
    );
    lemma_group_is_listed(rest, session);
    assert(keys.take(keys.len() as int) =~= keys);
    lemma_times_joined(a, b, t, id);
    lemma_times_joined(a + b, c, t, id);
    lemma_times_ordered(
        clients_found(sessions, mqtt_clients, grpc_clients, topics),
        order::relation::<ClientInfo, ByHost>(),
        t,
        id,
    );
}

/// Every connected MQTT client and every gRPC connection is listed, with or
/// without subscriptions.
pub proof fn law_every_connection_is_listed(
    sessions: Seq<SessionView>,
    mqtt_clients: Seq<MqttClientView>,
    grpc_clients: Seq<GrpcClientView>,
    topics: Seq<TopicSnapshotView>,
)
    ensures
        forall|i: int|
            0 <= i < mqtt_clients.len() ==> clients_listed(
                sessions,
                mqtt_clients,
                grpc_clients,
                topics,
            ).contains(mqtt_client(#[trigger] mqtt_clients[i], sessions, topics)),
        forall|i: int|
            0 <= i < grpc_clients.len() ==> clients_listed(
                sessions,
                mqtt_clients,
                grpc_clients,
                topics,
            ).contains(grpc_client(#[trigger] grpc_clients[i], sessions, topics)),
{
    let found = clients_found(sessions, mqtt_clients, grpc_clients, topics);
    let listed = clients_listed(sessions, mqtt_clients, grpc_clients, topics);
    let leq = order::relation::<ClientInfo, ByHost>();
    assert forall|i: int| 0 <= i < mqtt_clients.len() implies listed.contains(
        mqtt_client(#[trigger] mqtt_clients[i], sessions, topics),
    ) by {
        assert(found[i] == mqtt_client(mqtt_clients[i], sessions, topics));
        assert(found.contains(found[i]));
        order::lemma_ordered_holds(found, leq, found[i]);
    }
    assert forall|i: int| 0 <= i < grpc_clients.len() implies listed.contains(
        grpc_client(#[trigger] grpc_clients[i], sessions, topics),
    ) by {
        let k = mqtt_clients.len() + i;
        assert(found[k] == grpc_client(grpc_clients[i], sessions, topics));
        assert(found.contains(found[k]));
        order::lemma_ordered_holds(found, leq, found[k]);
    }
}

/// The clients are listed by host, peer and client id.
pub proof fn law_clients_are_listed_by_host(
    sessions: Seq<SessionView>,
    mqtt_clients: Seq<MqttClientView>,
    grpc_clients: Seq<GrpcClientView>,
    topics: Seq<TopicSnapshotView>,
)
    ensures
        ({
            let list = clients_listed(sessions, mqtt_clients, grpc_clients, topics);
            forall|i: int, j: int|
                0 <= i < j < list.len() ==> order::triple_leq(
                    ((#[trigger] list[i]).host, list[i].peer, list[i].client_id),
                    ((#[trigger] list[j]).host, list[j].peer, list[j].client_id),
                )
        }),
{
    let found = clients_found(sessions, mqtt_clients, grpc_clients, topics);
    let list = clients_listed(sessions, mqtt_clients, grpc_clients, topics);
    let leq = order::relation::<ClientInfo, ByHost>();
    assert forall|a: ClientView, b: ClientView| #[trigger] leq(a, b) || leq(b, a) by {
        let y = (b.host, b.peer, b.client_id);
        order::lemma_triple_leq((a.host, a.peer, a.client_id), y, y);
    }
    assert forall|a: ClientView, b: ClientView, c: ClientView| #[trigger]
        leq(a, b) && #[trigger] leq(b, c) implies leq(a, c) by {
        order::lemma_triple_leq(
            (a.host, a.peer, a.client_id),
            (b.host, b.peer, b.client_id),
            (c.host, c.peer, c.client_id),
        );
    }
    order::law_ordered(found, leq);
    assert forall|i: int, j: int| 0 <= i < j < list.len() implies order::triple_leq(
        ((#[trigger] list[i]).host, list[i].peer, list[i].client_id),
        ((#[trigger] list[j]).host, list[j].peer, list[j].client_id),
    ) by {
        assert(leq(list[i], list[j]));
    }
}

/// Of the consumers with one name the last counts, and of the topics with one
/// name the last that has the consumer.
pub proof fn law_the_last_registration_counts(
    topics: Seq<TopicSnapshotView>,
    consumers: Seq<ConsumerSnapshotView>,
    i: int,
    t: int,
)
    requires
        0 <= i < consumers.len(),
        forall|j: int| i < j < consumers.len() ==> (#[trigger] consumers[j]).id != consumers[i].id,
        0 <= t < topics.len(),
        topics[t].consumers == consumers,
        forall|u: int| t < u < topics.len() ==> (#[trigger] topics[u]).name != topics[t].name,
    ensures
        consumer_with(consumers, consumers[i].id) == Some(consumers[i]),
        registered(topics, topics[t].name, consumers[i].id) == Some(consumers[i]),
{
    lemma_consumer_with(consumers, i);
    lemma_registered(topics, t, consumers[i].id);
}

proof fn lemma_consumer_with(consumers: Seq<ConsumerSnapshotView>, i: int)
    requires
        0 <= i < consumers.len(),
        forall|j: int| i < j < consumers.len() ==> (#[trigger] consumers[j]).id != consumers[i].id,
    ensures
        consumer_with(consumers, consumers[i].id) == Some(consumers[i]),
    decreases consumers.len(),
{
    let init = consumers.drop_last();
    if i < init.len() {
        assert(init[i] == consumers[i]);
        assert forall|j: int| i < j < init.len() implies (#[trigger] init[j]).id != init[i].id by {
            assert(init[j] == consumers[j]);
        }
        assert(consumers[consumers.len() - 1].id != consumers[i].id);
        lemma_consumer_with(init, i);
    }
}

proof fn lemma_registered(topics: Seq<TopicSnapshotView>, t: int, id: Seq<char>)
    requires
        0 <= t < topics.len(),
        consumer_with(topics[t].consumers, id) is Some,
        forall|u: int| t < u < topics.len() ==> (#[trigger] topics[u]).name != topics[t].name,
    ensures
        registered(topics, topics[t].name, id) == consumer_with(topics[t].consumers, id),
    decreases topics.len(),
{
    let init = topics.drop_last();
    if t < init.len() {
        assert(init[t] == topics[t]);
        assert forall|u: int| t < u < init.len() implies (#[trigger] init[u]).name != init[t].name by {
            assert(init[u] == topics[u]);
        }
        assert(topics[topics.len() - 1].name != topics[t].name);
        lemma_registered(init, t, id);
    }
}

/// A subscription is shown with what its session says. What the session leaves
/// open comes from the consumer that registered, if one did; the name of an MQTT
/// session without one is the name of its client.
pub proof fn law_a_subscription_is_shown_as_it_is(
    session: SessionView,
    c: ConsumerSnapshotView,
    client_id: Seq<char>,
)
    ensures
        ({
            let known = subscription_of(session, Some(c));
            let alone = subscription_of(session, None);
            &&& known.id == session.id && alone.id == session.id
            &&& known.topic == session.topic && alone.topic == session.topic
            &&& known.protocol == session.protocol && alone.protocol == session.protocol
            &&& known.connected_at == session.connected_at
            &&& alone.connected_at == session.connected_at
            &&& known.last_seen_at == c.last_seen_at
            &&& alone.last_seen_at == session.connected_at
            &&& known.attributes == c.attributes
            &&& alone.attributes == Map::<Seq<char>, Seq<char>>::empty()
            &&& c.name.len() > 0 ==> known.name == c.name
            &&& session.id == "mqtt:"@ + client_id ==> alone.name == client_id
            &&& session.id == "mqtt:"@ + client_id && c.name.len() == 0 ==> known.name == client_id
            &&& !"mqtt:"@.is_prefix_of(session.id) ==> alone.name.len() == 0
            &&& session.version.len() > 0 ==> known.version == session.version && alone.version
                == session.version
            &&& session.host.len() > 0 ==> known.host == session.host && alone.host == session.host
            &&& session.version.len() == 0 ==> alone.version.len() == 0
            &&& session.host.len() == 0 ==> alone.host.len() == 0
            &&& session.version.len() == 0 && c.attributes.contains_key("version"@)
                ==> known.version == c.attributes["version"@]
            &&& session.host.len() == 0 && c.attributes.contains_key("host"@) ==> known.host
                == c.attributes["host"@]
        }),
{
    text::law_a_prefix_is_taken_off("mqtt:"@, client_id, session.id);
}

/// A connected client is shown with what its connection says, the number of its
/// subscriptions, and a version and host of its subscriptions where the
/// connection names none.
pub proof fn law_a_client_is_shown_as_it_is(
    mqtt: MqttClientView,
    grpc: GrpcClientView,
    sessions: Seq<SessionView>,
    topics: Seq<TopicSnapshotView>,
)
    ensures
        ({
            let c = mqtt_client(mqtt, sessions, topics);
            &&& c.peer == mqtt.peer
            &&& c.protocol == mqtt.transport
            &&& c.client_id == mqtt.client_id
            &&& c.connected_at == mqtt.connected_at
            &&& c.streams == c.subscriptions.len()
            &&& mqtt.version.len() > 0 ==> c.version == mqtt.version
            &&& mqtt.version.len() == 0 ==> c.version == first_filled(versions(c.subscriptions))
            &&& c.host == first_filled(hosts(c.subscriptions))
            &&& c.subscriptions.len() == 0 ==> c.last_seen_at == mqtt.connected_at
        }),
        ({
            let c = grpc_client(grpc, sessions, topics);
            &&& c.peer == grpc.peer
            &&& c.protocol == "grpc"@
            &&& c.client_id.len() == 0
            &&& c.connected_at == grpc.connected_at
            &&& c.streams == c.subscriptions.len()
            &&& grpc.version.len() > 0 ==> c.version == grpc.version
            &&& grpc.version.len() == 0 ==> c.version == first_filled(versions(c.subscriptions))
            &&& grpc.host.len() > 0 ==> c.host == grpc.host
            &&& grpc.host.len() == 0 ==> c.host == first_filled(hosts(c.subscriptions))
            &&& c.subscriptions.len() == 0 ==> c.last_seen_at == grpc.connected_at
        }),
{
}

/// The subscriptions of an MQTT client are those of its name, and the
/// subscriptions of a gRPC connection those of its address.
pub proof fn law_a_client_has_its_own_subscriptions(
    mqtt: MqttClientView,
    grpc: GrpcClientView,
    sessions: Seq<SessionView>,
    topics: Seq<TopicSnapshotView>,
    session: SessionView,
)
    requires
        sessions.contains(session),
    ensures
        session.id == "mqtt:"@ + mqtt.client_id ==> mqtt_client(
            mqtt,
            sessions,
            topics,
        ).subscriptions.contains(
            subscription_of(session, registered(topics, session.topic, session.id)),
        ),
        session.peer == grpc.peer ==> grpc_client(grpc, sessions, topics).subscriptions.contains(
            subscription_of(session, registered(topics, session.topic, session.id)),
        ),
        forall|i: int|
            0 <= i < mqtt_client(mqtt, sessions, topics).subscriptions.len() ==> (
            #[trigger] mqtt_client(mqtt, sessions, topics).subscriptions[i]).id == "mqtt:"@
                + mqtt.client_id,
{
    let of_name = chosen(sessions, of_mqtt(mqtt));
    let of_peer = chosen(sessions, of_grpc(grpc));
    let own = subscription_of(session, registered(topics, session.topic, session.id));
    let named = subscriptions_of(of_name, topics);
    let peered = subscriptions_of(of_peer, topics);
    if session.id == "mqtt:"@ + mqtt.client_id {
        lemma_chosen_holds(sessions, of_mqtt(mqtt), session);
        assert(named[of_name.index_of(session)] == own);
        assert(named.contains(own));
        order::lemma_ordered_holds(named, by_topic_and_id(), own);
    }
    if session.peer == grpc.peer {
        lemma_chosen_holds(sessions, of_grpc(grpc), session);
        assert(peered[of_peer.index_of(session)] == own);
        assert(peered.contains(own));
        order::lemma_ordered_holds(peered, by_topic_and_id(), own);
    }
    let list = mqtt_client(mqtt, sessions, topics).subscriptions;
    let leq = by_topic_and_id();
    assert forall|a: SubscriptionView, b: SubscriptionView| #[trigger] leq(a, b) || leq(b, a) by {
        order::lemma_pair_leq((a.topic, a.id), (b.topic, b.id), (b.topic, b.id));
    }
    assert forall|a: SubscriptionView, b: SubscriptionView, c: SubscriptionView| #[trigger]
        leq(a, b) && #[trigger] leq(b, c) implies leq(a, c) by {
        order::lemma_pair_leq((a.topic, a.id), (b.topic, b.id), (c.topic, c.id));
    }
    order::law_ordered(named, leq);
    named.to_multiset_ensures();
    list.to_multiset_ensures();
    assert forall|i: int| 0 <= i < list.len() implies (#[trigger] list[i]).id == "mqtt:"@
        + mqtt.client_id by {
        assert(list.contains(list[i]));
        assert(list.to_multiset().count(list[i]) > 0);
        assert(named.contains(list[i]));
        let k = named.index_of(list[i]);
        lemma_chosen_takes(sessions, of_mqtt(mqtt), k);
        assert(named[k].id == of_name[k].id);
    }
}

proof fn lemma_chosen_takes(
    sessions: Seq<SessionView>,
    takes: spec_fn(SessionView) -> bool,
    k: int,
)
    requires
        0 <= k < chosen(sessions, takes).len(),
    ensures
        takes(chosen(sessions, takes)[k]),
        sessions.contains(chosen(sessions, takes)[k]),
    decreases sessions.len(),
{
    let init = sessions.drop_last();
    if k < chosen(init, takes).len() {
        lemma_chosen_takes(init, takes, k);
        let at = init.index_of(chosen(init, takes)[k]);
        assert(sessions[at] == init[at]);
    } else {
        assert(sessions[sessions.len() - 1] == sessions.last());
    }
}

/// The first value that is not empty counts, and none where all are empty.
pub proof fn law_the_first_filled_value_counts(values: Seq<Seq<char>>, i: int)
    requires
        0 <= i <= values.len(),
        forall|j: int| 0 <= j < i ==> (#[trigger] values[j]).len() == 0,
        i < values.len() ==> values[i].len() > 0,
    ensures
        i < values.len() ==> first_filled(values) == values[i],
        i == values.len() ==> first_filled(values).len() == 0,
    decreases values.len(),
{
    if values.len() > 0 {
        let init = values.drop_last();
        assert forall|j: int| 0 <= j < i && j < init.len() implies (#[trigger] init[j]).len()
            == 0 by {
            assert(init[j] == values[j]);
        }
        if i < init.len() {
            assert(init[i] == values[i]);
            law_the_first_filled_value_counts(init, i);
        } else {
            law_the_first_filled_value_counts(init, init.len() as int);
            if i == values.len() {
                assert(values[values.len() - 1].len() == 0);
            }
        }
    }
}

/// A client was last seen when the last of its subscriptions was, and connected
/// when the first of them did.
pub proof fn law_the_last_sight_and_the_first_connection_count(
    list: Seq<SubscriptionView>,
    other: Seq<char>,
    i: int,
)
    requires
        0 <= i < list.len(),
    ensures
        !text::text_less(latest_seen(list, other), list[i].last_seen_at),
        !text::text_less(list[i].connected_at, first_connected(list)),
        exists|k: int|
            0 <= k < list.len() && (#[trigger] list[k]).last_seen_at == latest_seen(list, other),
        exists|k: int|
            0 <= k < list.len() && (#[trigger] list[k]).connected_at == first_connected(list),
    decreases list.len(),
{
    let init = list.drop_last();
    let last = list.last();
    text::lemma_text_less_order(last.last_seen_at, last.last_seen_at, last.last_seen_at);
    text::lemma_text_less_order(last.connected_at, last.connected_at, last.connected_at);
    assert(list[list.len() - 1] == last);
    if list.len() > 1 {
        let j = if i < init.len() {
            i
        } else {
            0
        };
        law_the_last_sight_and_the_first_connection_count(init, other, j);
        assert(init[j] == list[j]);
        let a = choose|k: int|
            0 <= k < init.len() && (#[trigger] init[k]).last_seen_at == latest_seen(init, other);
        let b = choose|k: int|
            0 <= k < init.len() && (#[trigger] init[k]).connected_at == first_connected(init);
        assert(init[a] == list[a]);
        assert(init[b] == list[b]);
        let seen = latest_seen(init, other);
        let first = first_connected(init);
        text::lemma_text_less_order(seen, last.last_seen_at, list[j].last_seen_at);
        text::lemma_text_less_order(list[j].last_seen_at, seen, last.last_seen_at);
        text::lemma_text_less_order(first, last.connected_at, list[j].connected_at);
        text::lemma_text_less_order(last.connected_at, first, list[j].connected_at);
    } else {
        assert(list[0] == last);
    }
}

/// Sessions of no connection belong to one client where they have the same host,
/// and where they name none, the same address.
pub proof fn law_sessions_are_grouped_by_host(a: SessionView, b: SessionView)
    ensures
        a.host.len() > 0 && b.host.len() > 0 ==> (group_key(a) == group_key(b) <==> a.host
            == b.host),
        a.host.len() == 0 && b.host.len() == 0 ==> (group_key(a) == group_key(b) <==> a.peer
            == b.peer),
        (a.host.len() == 0) != (b.host.len() == 0) ==> group_key(a) != group_key(b),
{
    reveal_strlit("p:");
    reveal_strlit("h:");
    let x = group_key(a);
    let y = group_key(b);
    assert(x.skip(2) =~= if a.host.len() == 0 {
        a.peer
    } else {
        a.host
    });
    assert(y.skip(2) =~= if b.host.len() == 0 {
        b.peer
    } else {
        b.host
    });
    assert(x[0] == if a.host.len() == 0 {
        'p'
    } else {
        'h'
    });
    assert(y[0] == if b.host.len() == 0 {
        'p'
    } else {
        'h'
    });
}

/// A group has the address of its first session, no name of its own, and the
/// protocol of its first subscription; it connected when its first subscription
/// did.
pub proof fn law_a_group_is_shown_as_one_client(
    key: Seq<char>,
    rest: Seq<SessionView>,
    topics: Seq<TopicSnapshotView>,
)
    ensures
        ({
            let c = group_client(key, rest, topics);
            let members = chosen(rest, |s: SessionView| group_key(s) == key);
            &&& c.peer == members[0].peer
            &&& c.client_id.len() == 0
            &&& c.protocol == c.subscriptions[0].protocol
            &&& c.connected_at == first_connected(c.subscriptions)
            &&& c.version == first_filled(versions(c.subscriptions))
            &&& c.host == first_filled(hosts(c.subscriptions))
            &&& c.streams == members.len()
        }),
{
    let members = chosen(rest, of_group(key));
    assert(of_group(key) =~= |s: SessionView| group_key(s) == key);
    order::lemma_ordered_len(subscriptions_of(members, topics), by_topic_and_name());
}

} // verus!
