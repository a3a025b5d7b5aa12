//! Settings of a topic and messages on their way downstream.

use cangling_broker::model::{
    base64_encode, text_payload, ClaimedMessage, DeliveryMode, PersistenceMode, TopicConfig,
    TopicSnapshot,
};

#[test]
fn persistence_parse_defaults_empty_to_persistent() {
    assert_eq!(PersistenceMode::parse(""), Some(PersistenceMode::Persistent));
    assert_eq!(
        PersistenceMode::parse("DURABLE"),
        Some(PersistenceMode::Persistent)
    );
    assert_eq!(
        PersistenceMode::parse("drop"),
        Some(PersistenceMode::Ephemeral)
    );
    assert_eq!(PersistenceMode::parse("maybe"), None);
}

#[test]
fn implicit_topic_is_broadcast_ephemeral() {
    let config = TopicConfig::implicit("demo");
    assert_eq!(config.delivery, DeliveryMode::Broadcast);
    assert_eq!(config.persistence, PersistenceMode::Ephemeral);
    assert_eq!(DeliveryMode::from_stored(""), DeliveryMode::Broadcast);
    assert_eq!(PersistenceMode::from_stored(""), PersistenceMode::Ephemeral);
}

#[test]
fn stored_names_are_read_back() {
    for mode in [DeliveryMode::Single, DeliveryMode::Broadcast] {
        assert_eq!(DeliveryMode::from_stored(mode.as_str()), mode);
        assert_eq!(DeliveryMode::parse(mode.as_str()), Some(mode));
    }
    for mode in [PersistenceMode::Persistent, PersistenceMode::Ephemeral] {
        assert_eq!(PersistenceMode::from_stored(mode.as_str()), mode);
        assert_eq!(PersistenceMode::parse(mode.as_str()), Some(mode));
    }
    assert_eq!(DeliveryMode::parse("both"), None);
}

#[test]
fn base64_has_its_alphabet_and_padding() {
    assert_eq!(base64_encode(b""), "");
    assert_eq!(base64_encode(b"f"), "Zg==");
    assert_eq!(base64_encode(b"fo"), "Zm8=");
    assert_eq!(base64_encode(b"foo"), "Zm9v");
    assert_eq!(base64_encode(b"foobar"), "Zm9vYmFy");
    assert_eq!(base64_encode(&[0xfb, 0xff, 0xfe]), "+//+");
}

fn base64_digit(c: u8) -> u32 {
    let alphabet = "ABCDEFGHIJKLMNOPQRSTUVWXYZabcdefghijklmnopqrstuvwxyz0123456789+/";
    alphabet.bytes().position(|item| item == c).unwrap() as u32
}

#[test]
fn base64_gives_the_bytes_back() {
    for len in 0..20usize {
        let bytes: Vec<u8> = (0..len).map(|i| (i * 83 + 7 * len) as u8).collect();
        let text = base64_encode(&bytes);
        assert_eq!(text.len() % 4, 0);
        let padding = text.bytes().rev().take_while(|c| *c == b'=').count();
        assert_eq!(padding, (3 - len % 3) % 3);
        let mut back: Vec<u8> = Vec::new();
        for group in text.trim_end_matches('=').as_bytes().chunks(4) {
            let mut bits: u32 = 0;
            for c in group {
                bits = bits << 6 | base64_digit(*c);
            }
            bits <<= 6 * (4 - group.len());
            for k in 0..group.len() - 1 {
                back.push((bits >> (16 - 8 * k)) as u8);
            }
        }
        assert_eq!(back, bytes);
    }
}

#[test]
fn text_goes_downstream_as_text() {
    assert_eq!(
        text_payload(&"温度".as_bytes().to_vec()),
        ("温度".to_string(), "utf-8")
    );
    assert_eq!(text_payload(&vec![0xff]), ("/w==".to_string(), "base64"));
}

#[test]
fn a_claimed_message_goes_downstream_whole() {
    let message = ClaimedMessage {
        id: "s03-a".into(),
        topic: "jobs".into(),
        payload: b"hi".to_vec(),
        attributes: "{\"k\":\"v\"}".into(),
        created_at: "2026-08-16T00:00:00+00:00".into(),
        lease: "l".into(),
    };
    let sent = message.to_downstream();
    assert_eq!(sent.id, "s03-a");
    assert_eq!(sent.topic, "jobs");
    assert_eq!(sent.payload, "hi");
    assert_eq!(sent.payload_encoding, "utf-8");
    assert_eq!(sent.attributes, "{\"k\":\"v\"}");
    assert_eq!(sent.created_at, "2026-08-16T00:00:00+00:00");
}

#[test]
fn a_blank_snapshot_counts_nothing() {
    let blank = TopicSnapshot::blank("jobs");
    assert_eq!(blank.name, "jobs");
    assert_eq!(blank.accepted, 0);
    assert_eq!(blank.delivery, "");
    assert!(blank.consumers.is_empty());
    assert_eq!(TopicSnapshot::default().name, "");
}
