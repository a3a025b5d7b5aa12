//! MQTT packets on the wire.

use cangling_broker::mqtt::codec::{
    decode_one, encode, encode_remaining_length, CodecError, ConnAck, Connect, Packet, Publish,
    SubAck, Subscribe, SubscribeFilter, Unsubscribe, CONNACK_ACCEPT, CONNACK_NOT_AUTHORIZED,
    MAX_PACKET_SIZE, SUBACK_FAILURE,
};

fn roundtrip(packet: Packet) -> Packet {
    let encoded = encode(&packet);
    let mut buf = encoded;
    decode_one(&mut buf).unwrap().unwrap()
}

#[test]
fn remaining_length_boundaries() {
    let mut out = Vec::new();
    encode_remaining_length(127, &mut out);
    assert_eq!(out, vec![127]);
    out.clear();
    encode_remaining_length(128, &mut out);
    assert_eq!(out, vec![0x80, 1]);
    out.clear();
    encode_remaining_length(16383, &mut out);
    assert_eq!(out, vec![0xff, 0x7f]);
}

#[test]
fn decode_needs_more_bytes() {
    let mut buf = vec![0x30, 0x05, b'h'];
    assert!(decode_one(&mut buf).unwrap().is_none());
    assert_eq!(buf.len(), 3);
}

#[test]
fn connect_roundtrip() {
    let packet = Packet::Connect(Connect {
        protocol_level: 4,
        clean_session: true,
        keep_alive: 30,
        client_id: "dev-1".into(),
        username: Some("user".into()),
        password: Some(b"secret".to_vec()),
    });
    match roundtrip(packet) {
        Packet::Connect(connect) => {
            assert_eq!(connect.client_id, "dev-1");
            assert_eq!(connect.protocol_version(), "3.1.1");
            assert_eq!(connect.keep_alive, 30);
            assert_eq!(connect.username.as_deref(), Some("user"));
            assert_eq!(connect.password.as_deref(), Some(b"secret".as_slice()));
        }
        other => panic!("{other:?}"),
    }
}

#[test]
fn publish_qos1_roundtrip() {
    let packet = Packet::Publish(Publish {
        dup: false,
        qos: 1,
        retain: false,
        topic: "sensor/temp".into(),
        packet_id: Some(7),
        payload: b"22.5".to_vec(),
    });
    match roundtrip(packet) {
        Packet::Publish(publish) => {
            assert_eq!(publish.topic, "sensor/temp");
            assert_eq!(publish.qos, 1);
            assert_eq!(publish.packet_id, Some(7));
            assert_eq!(publish.payload, b"22.5");
        }
        other => panic!("{other:?}"),
    }
}

#[test]
fn subscribe_roundtrip() {
    let packet = Packet::Subscribe(Subscribe {
        packet_id: 9,
        filters: vec![SubscribeFilter {
            topic: "jobs".into(),
            qos: 1,
        }],
    });
    match roundtrip(packet) {
        Packet::Subscribe(sub) => {
            assert_eq!(sub.packet_id, 9);
            assert_eq!(sub.filters[0].topic, "jobs");
            assert_eq!(sub.filters[0].qos, 1);
        }
        other => panic!("{other:?}"),
    }
}

#[test]
fn ping_and_disconnect_roundtrip() {
    assert!(matches!(roundtrip(Packet::PingReq), Packet::PingReq));
    assert!(matches!(roundtrip(Packet::PingResp), Packet::PingResp));
    assert!(matches!(roundtrip(Packet::Disconnect), Packet::Disconnect));
}

#[test]
fn two_packets_in_one_buffer() {
    let mut buf = encode(&Packet::PingReq);
    buf.extend_from_slice(&encode(&Packet::PingResp));
    assert!(matches!(decode_one(&mut buf).unwrap(), Some(Packet::PingReq)));
    assert!(matches!(decode_one(&mut buf).unwrap(), Some(Packet::PingResp)));
    assert!(buf.is_empty());
}

#[test]
fn every_packet_roundtrips() {
    let packets = vec![
        Packet::ConnAck(ConnAck {
            session_present: true,
            code: CONNACK_ACCEPT,
        }),
        Packet::ConnAck(ConnAck {
            session_present: false,
            code: CONNACK_NOT_AUTHORIZED,
        }),
        Packet::Publish(Publish {
            dup: true,
            qos: 0,
            retain: true,
            topic: "a".into(),
            packet_id: None,
            payload: vec![],
        }),
        Packet::PubAck { packet_id: 1 },
        Packet::PubRec { packet_id: 65535 },
        Packet::PubRel { packet_id: 256 },
        Packet::PubComp { packet_id: 3 },
        Packet::SubAck(SubAck {
            packet_id: 4,
            codes: vec![0, 1, SUBACK_FAILURE],
        }),
        Packet::Unsubscribe(Unsubscribe {
            packet_id: 5,
            filters: vec!["a/#".into(), "温度".into()],
        }),
        Packet::UnsubAck { packet_id: 6 },
        Packet::PingReq,
        Packet::PingResp,
        Packet::Disconnect,
    ];
    for packet in packets {
        let expected = packet.clone();
        assert_eq!(roundtrip(packet), expected);
    }
}

#[test]
fn packets_have_their_bytes() {
    assert_eq!(encode(&Packet::PingReq), vec![0xc0, 0]);
    assert_eq!(encode(&Packet::PingResp), vec![0xd0, 0]);
    assert_eq!(encode(&Packet::Disconnect), vec![0xe0, 0]);
    assert_eq!(
        encode(&Packet::PubAck { packet_id: 0x0102 }),
        vec![0x40, 2, 1, 2]
    );
    assert_eq!(
        encode(&Packet::Publish(Publish {
            dup: false,
            qos: 1,
            retain: false,
            topic: "ab".into(),
            packet_id: Some(7),
            payload: b"x".to_vec(),
        })),
        vec![0x32, 7, 0, 2, b'a', b'b', 0, 7, b'x']
    );
    assert_eq!(
        encode(&Packet::SubAck(SubAck {
            packet_id: 9,
            codes: vec![1, SUBACK_FAILURE],
        })),
        vec![0x90, 4, 0, 9, 1, 0x80]
    );
}

#[test]
fn a_packet_waits_for_its_last_byte() {
    let whole = encode(&Packet::Publish(Publish {
        dup: false,
        qos: 0,
        retain: false,
        topic: "jobs".into(),
        packet_id: None,
        payload: vec![1; 300],
    }));
    for n in 0..whole.len() {
        let mut part = whole[..n].to_vec();
        assert!(decode_one(&mut part).unwrap().is_none());
        assert_eq!(part, whole[..n].to_vec());
    }
    let mut all = whole.clone();
    all.push(0xc0);
    assert!(decode_one(&mut all).unwrap().is_some());
    assert_eq!(all, vec![0xc0]);
}

#[test]
fn broken_packets_are_refused() {
    // Bit patterns of the fixed header that no packet has.
    let mut reserved = vec![0x00, 0x00];
    assert!(matches!(decode_one(&mut reserved), Err(CodecError::Malformed(_))));
    // A length of five bytes.
    let mut endless = vec![0x30, 0xff, 0xff, 0xff, 0xff, 0x01];
    assert!(decode_one(&mut endless).is_err());
    // A packet over the limit.
    let mut large = vec![0x30];
    encode_remaining_length(MAX_PACKET_SIZE + 1, &mut large);
    assert!(matches!(decode_one(&mut large), Err(CodecError::TooLarge)));
    // A topic that is not text.
    let mut garbled = vec![0x30, 3, 0, 1, 0xff];
    let fault = decode_one(&mut garbled).unwrap_err();
    assert!(!fault.message().is_empty());
}
