//! MQTT sessions, from the bytes of a client to the bytes of its answer.

use cangling_broker::config::Config;
use cangling_broker::db::Database;
use cangling_broker::delivery::{fanout_done, ingest, Ingested, Intake, SatwayMessage};
use cangling_broker::json::Attributes;
use cangling_broker::model::{DeliveryMode, PersistenceMode, TopicConfig};
use cangling_broker::mqtt::codec::{
    decode_one, encode, ConnAck, Connect, Packet, Publish, SubAck, Subscribe, SubscribeFilter,
    Unsubscribe, CONNACK_ACCEPT, CONNACK_BAD_AUTH, CONNACK_IDENTIFIER, CONNACK_NOT_AUTHORIZED,
    CONNACK_PROTOCOL, SUBACK_FAILURE,
};
use cangling_broker::mqtt::inflight::{alloc_packet_id, InflightPublishes};
use cangling_broker::mqtt::session::{
    accept_publish, authorized_for_test, keepalive_idle, let_in, let_in_as, read_frame, welcome,
    Frame, PublishFault, Reaction, Refusal, SessionAction, SessionEvent, SessionState,
};
use cangling_broker::subscribers::{InflightAcks, TopicSubscribers};
use cangling_broker::subscription::{Event, Subscription};

/// A client of a broker: the session, and what was written to the client.
struct Client {
    state: SessionState,
    tx: u64,
    subscriptions: Vec<Subscription>,
    written: Vec<u8>,
    open: bool,
}

/// A broker without sockets: every loop is turned by hand.
struct Broker {
    db: Database,
    live: TopicSubscribers,
    acks: InflightAcks,
    config: Config,
    clients: Vec<Client>,
}

fn broker() -> Broker {
    let db = match Database::connect(Database::new(), &mut vec![], false) {
        Ok(db) => db,
        Err(_) => panic!("an empty store starts"),
    };
    Broker {
        db,
        live: TopicSubscribers::default(),
        acks: InflightAcks::default(),
        config: Config::test_default(),
        clients: Vec::new(),
    }
}

fn connect_packet(client_id: &str, password: Option<&str>) -> Packet {
    Packet::Connect(Connect {
        protocol_level: 4,
        clean_session: true,
        keep_alive: 30,
        client_id: client_id.into(),
        username: None,
        password: password.map(|value| value.as_bytes().to_vec()),
    })
}

impl Broker {
    /// Lets a client in; gives its number.
    fn connect_ok(&mut self, client_id: &str, password: Option<&str>) -> usize {
        let mut bytes = encode(&connect_packet(client_id, password));
        let first = match read_frame(&mut bytes) {
            Frame::Packet(packet) => packet,
            _ => panic!("a whole packet was sent"),
        };
        let who = match let_in(&first, self.config.auth_token.as_deref()) {
            Ok(who) => who,
            Err(_) => panic!("the client is let in"),
        };
        let n = self.clients.len();
        let mut client = Client {
            state: SessionState::new(who, format!("127.0.0.1:{n}"), "mqtt"),
            tx: n as u64,
            subscriptions: Vec::new(),
            written: Vec::new(),
            open: true,
        };
        client.written.extend_from_slice(&encode(&welcome()));
        self.clients.push(client);
        match self.read_packet(n) {
            Some(Packet::ConnAck(ConnAck { code, .. })) => assert_eq!(code, CONNACK_ACCEPT),
            other => panic!("expected CONNACK, got {other:?}"),
        }
        n
    }

    fn read_packet(&mut self, n: usize) -> Option<Packet> {
        decode_one(&mut self.clients[n].written).unwrap()
    }

    fn write_packet(&mut self, n: usize, packet: &Packet) {
        let mut bytes = encode(packet);
        let incoming = match read_frame(&mut bytes) {
            Frame::Packet(packet) => packet,
            _ => panic!("a whole packet was sent"),
        };
        self.turn(n, SessionEvent::Incoming(incoming));
    }

    fn turn(&mut self, n: usize, event: SessionEvent) {
        let client = &mut self.clients[n];
        let tx = client.tx;
        let action =
            client
                .state
                .step(event, &mut self.db, &mut self.acks, &self.config, tx);
        match action {
            SessionAction::Write(job) => {
                client.written.extend_from_slice(&encode(&job.packet));
                if let Some((message_id, lease)) = job.ack {
                    let _ = self.acks.complete(&message_id, &lease, true, String::new());
                }
            }
            SessionAction::React(reaction) => self.react(n, reaction),
            SessionAction::End => client.open = false,
        }
    }

    fn react(&mut self, n: usize, reaction: Reaction) {
        match reaction {
            Reaction::Nothing | Reaction::Acknowledged { .. } => {}
            Reaction::Reply(packet) => {
                let bytes = encode(&packet);
                self.clients[n].written.extend_from_slice(&bytes);
            }
            Reaction::Ingest(publish) => self.publish(n, publish),
            Reaction::Subscribed { starts, reply } => {
                for start in starts {
                    if start.replaces {
                        let topic = start.args.topic.clone();
                        self.stop(n, &topic);
                    }
                    let subscription = Subscription::start(start.args, &mut self.live);
                    self.clients[n].subscriptions.push(subscription);
                }
                let bytes = encode(&reply);
                self.clients[n].written.extend_from_slice(&bytes);
            }
            Reaction::Unsubscribed { stops, reply } => {
                for topic in stops {
                    self.stop(n, &topic);
                }
                let bytes = encode(&reply);
                self.clients[n].written.extend_from_slice(&bytes);
            }
            Reaction::End | Reaction::Fault => self.clients[n].open = false,
        }
    }

    fn stop(&mut self, n: usize, topic: &str) {
        let subscriptions = std::mem::take(&mut self.clients[n].subscriptions);
        for mut subscription in subscriptions {
            if subscription.args.topic == topic {
                subscription.step(
                    &mut self.db,
                    &mut self.live,
                    &mut self.acks,
                    Event::Go { closing: true },
                );
            } else {
                self.clients[n].subscriptions.push(subscription);
            }
        }
    }

    fn publish(&mut self, n: usize, publish: Publish) {
        let client_id = self.clients[n].state.client_id.clone();
        match accept_publish(&mut self.db, &self.live, &client_id, &publish) {
            Ok((intake, reply)) => {
                if let Intake::Send(fanout) = intake {
                    let topic = fanout.message.topic.clone();
                    let message_id = fanout.message.message_id.clone();
                    for to in &fanout.to {
                        let message = SatwayMessage {
                            message_id: fanout.message.message_id.clone(),
                            topic: fanout.message.topic.clone(),
                            payload: fanout.message.payload.clone(),
                            attributes: fanout.message.attributes.clone(),
                            created_at: fanout.message.created_at.clone(),
                            lease: fanout.message.lease.clone(),
                        };
                        self.turn(*to as usize, SessionEvent::Outgoing(message));
                    }
                    let _ = fanout_done(&mut self.db, &topic, message_id, fanout.to.len());
                }
                if let Some(packet) = reply {
                    let bytes = encode(&packet);
                    self.clients[n].written.extend_from_slice(&bytes);
                }
            }
            Err(_) => self.clients[n].open = false,
        }
    }
}

fn subscribe(packet_id: u16, filters: &[(&str, u8)]) -> Packet {
    Packet::Subscribe(Subscribe {
        packet_id,
        filters: filters
            .iter()
            .map(|(topic, qos)| SubscribeFilter {
                topic: topic.to_string(),
                qos: *qos,
            })
            .collect(),
    })
}

fn publish(topic: &str, packet_id: u16, payload: &[u8]) -> Packet {
    Packet::Publish(Publish {
        dup: false,
        qos: 1,
        retain: false,
        topic: topic.into(),
        packet_id: Some(packet_id),
        payload: payload.to_vec(),
    })
}

#[test]
fn password_or_username_matches_token() {
    assert!(authorized_for_test(None, None, None));
    assert!(authorized_for_test(Some("tok"), None, Some("tok")));
    assert!(authorized_for_test(Some("tok"), Some("tok"), None));
    assert!(!authorized_for_test(Some("tok"), Some("no"), Some("no")));
    assert!(!authorized_for_test(Some("tok"), None, None));
}

#[test]
fn rejects_missing_token() {
    let first = Packet::Connect(Connect {
        protocol_level: 4,
        clean_session: true,
        keep_alive: 10,
        client_id: "no-auth".into(),
        username: None,
        password: None,
    });
    match let_in(&first, Some("change-me")) {
        Ok(_) => panic!("nobody may come in without the token"),
        Err(refusal) => match refusal.answer() {
            Some(Packet::ConnAck(ConnAck { code, .. })) => {
                assert_eq!(code, CONNACK_NOT_AUTHORIZED)
            }
            other => panic!("{other:?}"),
        },
    }
}

#[test]
fn malformed_hash_subscribe_is_rejected() {
    let mut broker = broker();
    let wild = broker.connect_ok("wild", None);
    broker.write_packet(wild, &subscribe(1, &[("sensor#", 1), ("a/#/b", 1)]));
    match broker.read_packet(wild) {
        Some(Packet::SubAck(SubAck { packet_id, codes })) => {
            assert_eq!(packet_id, 1);
            assert_eq!(codes, vec![SUBACK_FAILURE, SUBACK_FAILURE]);
        }
        other => panic!("{other:?}"),
    }
}

#[test]
fn hash_subscribe_receives_child_topics() {
    let mut broker = broker();
    let sub = broker.connect_ok("hash-sub", None);
    broker.write_packet(sub, &subscribe(2, &[("building/#", 1)]));
    match broker.read_packet(sub) {
        Some(Packet::SubAck(SubAck { codes, .. })) => assert_eq!(codes, vec![1]),
        other => panic!("{other:?}"),
    }

    let publisher = broker.connect_ok("hash-pub", None);
    broker.write_packet(publisher, &publish("building/floor1/temp", 11, b"23.5"));
    match broker.read_packet(publisher) {
        Some(Packet::PubAck { packet_id }) => assert_eq!(packet_id, 11),
        other => panic!("{other:?}"),
    }

    match broker.read_packet(sub) {
        Some(Packet::Publish(publish)) => {
            assert_eq!(publish.topic, "building/floor1/temp");
            assert_eq!(publish.payload, b"23.5");
            assert_eq!(publish.qos, 1);
            broker.write_packet(
                sub,
                &Packet::PubAck {
                    packet_id: publish.packet_id.expect("qos1"),
                },
            );
        }
        other => panic!("{other:?}"),
    }

    broker.write_packet(publisher, &publish("other", 12, b"nope"));
    match broker.read_packet(publisher) {
        Some(Packet::PubAck { packet_id }) => assert_eq!(packet_id, 12),
        other => panic!("{other:?}"),
    }
    let late = broker.read_packet(sub);
    assert!(late.is_none(), "hash filter must not receive unrelated topics");
}

#[test]
fn publish_subscribe_qos1_roundtrip() {
    let mut broker = broker();
    let sub = broker.connect_ok("sub-1", None);
    broker.write_packet(sub, &subscribe(2, &[("demo", 1)]));
    match broker.read_packet(sub) {
        Some(Packet::SubAck(SubAck { codes, .. })) => assert_eq!(codes, vec![1]),
        other => panic!("{other:?}"),
    }

    let publisher = broker.connect_ok("pub-1", None);
    broker.write_packet(publisher, &publish("demo", 9, b"hello-mqtt"));
    match broker.read_packet(publisher) {
        Some(Packet::PubAck { packet_id }) => assert_eq!(packet_id, 9),
        other => panic!("{other:?}"),
    }

    match broker.read_packet(sub) {
        Some(Packet::Publish(publish)) => {
            assert_eq!(publish.topic, "demo");
            assert_eq!(publish.payload, b"hello-mqtt");
            assert_eq!(publish.qos, 1);
            let packet_id = publish.packet_id.expect("qos1 packet id");
            broker.write_packet(sub, &Packet::PubAck { packet_id });
        }
        other => panic!("{other:?}"),
    }
    assert!(broker.clients[sub].open);
}

#[test]
fn unsubscribe_stops_delivery() {
    let mut broker = broker();
    let sub = broker.connect_ok("sub-un", None);
    broker.write_packet(sub, &subscribe(1, &[("once", 0)]));
    let _ = broker.read_packet(sub);
    assert_eq!(broker.live.count("once"), 1);
    broker.write_packet(
        sub,
        &Packet::Unsubscribe(Unsubscribe {
            packet_id: 2,
            filters: vec!["once".into()],
        }),
    );
    match broker.read_packet(sub) {
        Some(Packet::UnsubAck { packet_id }) => assert_eq!(packet_id, 2),
        other => panic!("{other:?}"),
    }
    assert_eq!(broker.live.count("once"), 0);
}

#[test]
fn ping_gets_pong() {
    let mut broker = broker();
    let stream = broker.connect_ok("pinger", None);
    broker.write_packet(stream, &Packet::PingReq);
    assert!(matches!(broker.read_packet(stream), Some(Packet::PingResp)));
}

#[test]
fn ingest_queues_for_live_mqtt_topic() {
    let mut broker = broker();
    broker.live.add("jobs", "mqtt:c1", 1, "127.0.0.1:1", "mqtt");
    let intake = match ingest(
        &mut broker.db,
        &broker.live,
        "jobs",
        &b"x".to_vec(),
        Attributes::new(),
        None,
    ) {
        Ok(intake) => intake,
        Err(_) => panic!("the message is taken"),
    };
    let ingested = match intake {
        Intake::Done(ingested) => ingested,
        Intake::Send(fanout) => {
            assert_eq!(fanout.to, vec![1]);
            fanout_done(
                &mut broker.db,
                "jobs",
                fanout.message.message_id,
                fanout.to.len(),
            )
        }
    };
    match ingested {
        Ingested::Queued { duplicate, .. } => assert!(!duplicate),
        Ingested::Dropped { .. } => panic!("should queue when a subscriber is live"),
    }
}

#[test]
fn every_refusal_has_its_answer() {
    let mut connect = Connect {
        protocol_level: 4,
        clean_session: true,
        keep_alive: 10,
        client_id: "c".into(),
        username: None,
        password: None,
    };
    assert!(matches!(
        let_in_as(&Packet::PingReq, None, "x"),
        Err(Refusal::NotConnect)
    ));
    assert!(Refusal::NotConnect.answer().is_none());
    connect.protocol_level = 9;
    assert!(matches!(
        let_in_as(&Packet::Connect(connect.clone()), None, "x"),
        Err(Refusal::Protocol)
    ));
    connect.protocol_level = 4;
    connect.client_id = String::new();
    connect.clean_session = false;
    assert!(matches!(
        let_in_as(&Packet::Connect(connect.clone()), None, "x"),
        Err(Refusal::Identifier)
    ));
    connect.clean_session = true;
    connect.password = Some(b"wrong".to_vec());
    assert!(matches!(
        let_in_as(&Packet::Connect(connect.clone()), Some("right"), "x"),
        Err(Refusal::BadAuth)
    ));
    for (refusal, expected) in [
        (Refusal::Protocol, CONNACK_PROTOCOL),
        (Refusal::Identifier, CONNACK_IDENTIFIER),
        (Refusal::BadAuth, CONNACK_BAD_AUTH),
        (Refusal::NotAuthorized, CONNACK_NOT_AUTHORIZED),
    ] {
        match refusal.answer() {
            Some(Packet::ConnAck(ConnAck { code, session_present })) => {
                assert_eq!(code, expected);
                assert!(!session_present);
            }
            other => panic!("{other:?}"),
        }
    }
    // A client without a name is given one.
    connect.password = Some(b"right".to_vec());
    match let_in_as(&Packet::Connect(connect), Some("right"), "fresh") {
        Ok(who) => {
            assert!(who.client_id.contains("fresh"));
            assert_eq!(who.keep_alive, 10);
            assert_eq!(who.version, "3.1.1");
        }
        Err(_) => panic!("the client is let in"),
    }
}

#[test]
fn an_acknowledgement_settles_what_was_published() {
    let mut broker = broker();
    broker.db.configure_topics(&vec![TopicConfig {
        topic: "jobs".into(),
        delivery: DeliveryMode::Single,
        persistence: PersistenceMode::Persistent,
    }]);
    let sub = broker.connect_ok("worker", None);
    broker.write_packet(sub, &subscribe(1, &[("jobs", 1)]));
    let _ = broker.read_packet(sub);
    broker.acks.register("m1".into(), "l1".into());
    broker.turn(
        sub,
        SessionEvent::Outgoing(SatwayMessage {
            message_id: "m1".into(),
            topic: "jobs".into(),
            payload: b"x".to_vec(),
            attributes: Attributes::new(),
            created_at: "t".into(),
            lease: "l1".into(),
        }),
    );
    let packet_id = match broker.read_packet(sub) {
        Some(Packet::Publish(publish)) => publish.packet_id.expect("qos1"),
        other => panic!("{other:?}"),
    };
    let tx = broker.clients[sub].tx;
    let reaction = broker.clients[sub].state.handle_packet(
        Packet::PubAck { packet_id },
        &mut broker.db,
        &mut broker.acks,
        &broker.config,
        tx,
    );
    match reaction {
        Reaction::Acknowledged { lease, decision } => {
            assert_eq!(lease, "l1");
            assert!(decision.success);
        }
        _ => panic!("the message is acknowledged"),
    }
    // A second acknowledgement says nothing.
    let reaction = broker.clients[sub].state.handle_packet(
        Packet::PubAck { packet_id },
        &mut broker.db,
        &mut broker.acks,
        &broker.config,
        tx,
    );
    assert!(matches!(reaction, Reaction::Nothing));
}

#[test]
fn a_session_ends_when_the_client_goes() {
    let mut broker = broker();
    for (n, event) in [
        SessionEvent::Cancelled,
        SessionEvent::OutgoingClosed,
        SessionEvent::IncomingClosed,
        SessionEvent::Idle,
        SessionEvent::Incoming(Packet::Disconnect),
    ]
    .into_iter()
    .enumerate()
    {
        let client = broker.connect_ok(&format!("c{n}"), None);
        broker.turn(client, event);
        assert!(!broker.clients[client].open);
    }
}

#[test]
fn a_wildcard_is_nothing_to_publish_to() {
    let mut broker = broker();
    let Packet::Publish(wrong) = publish("a/#", 1, b"x") else {
        unreachable!()
    };
    assert!(matches!(
        accept_publish(&mut broker.db, &broker.live, "c", &wrong),
        Err(PublishFault::Topic)
    ));
}

#[test]
fn keep_alive_is_stretched_by_half() {
    assert_eq!(keepalive_idle(0), None);
    assert_eq!(keepalive_idle(10), Some(15_000));
}

#[test]
fn a_packet_number_in_use_is_not_given_again() {
    let mut used = InflightPublishes::new();
    let mut next: u16 = 65535;
    let first = alloc_packet_id(&mut next, &used);
    assert_eq!(first, 1);
    used.insert(first, "m".into(), "l".into());
    next = 65535;
    let second = alloc_packet_id(&mut next, &used);
    assert_eq!(second, 2);
    assert_eq!(next, 2);
    assert!(used.contains(first));
    assert_eq!(used.remove(first), Some(("m".to_string(), "l".to_string())));
    assert_eq!(used.remove(first), None);
}

#[test]
fn broken_bytes_end_the_reading() {
    let mut half = vec![0x30, 5];
    assert!(matches!(read_frame(&mut half), Frame::More));
    let mut wrong = vec![0x00, 0x00];
    assert!(matches!(read_frame(&mut wrong), Frame::Broken));
}
