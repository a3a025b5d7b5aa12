//! MQTT control packets and their wire format.
//!
//! `encoding` gives the bytes of a packet and `decoded` what the front of a
//! receive buffer holds; `encode` and `decode_one` compute them.
use vstd::prelude::*;
use vstd::string::*;
use vstd::utf8::*;

use crate::text;

verus! {

pub const MAX_PACKET_SIZE: usize = 1048576;

pub const CONNACK_ACCEPT: u8 = 0;

pub const CONNACK_PROTOCOL: u8 = 1;

pub const CONNACK_IDENTIFIER: u8 = 2;

pub const CONNACK_BAD_AUTH: u8 = 4;

pub const CONNACK_NOT_AUTHORIZED: u8 = 5;

pub const SUBACK_FAILURE: u8 = 0x80;

#[derive(Debug, Clone, PartialEq, Eq)]
pub enum Packet {
    Connect(Connect),
    ConnAck(ConnAck),
    Publish(Publish),
    PubAck { packet_id: u16 },
    PubRec { packet_id: u16 },
    PubRel { packet_id: u16 },
    PubComp { packet_id: u16 },
    Subscribe(Subscribe),
    SubAck(SubAck),
    Unsubscribe(Unsubscribe),
    UnsubAck { packet_id: u16 },
    PingReq,
    PingResp,
    Disconnect,
}

#[derive(Debug, Clone, PartialEq, Eq)]
pub struct Connect {
    pub protocol_level: u8,
    pub clean_session: bool,
    pub keep_alive: u16,
    pub client_id: String,
    pub username: Option<String>,
    pub password: Option<Vec<u8>>,
}

#[derive(Debug, Clone, PartialEq, Eq)]
pub struct ConnAck {
    pub session_present: bool,
    pub code: u8,
}

#[derive(Debug, Clone, PartialEq, Eq)]
pub struct Publish {
    pub dup: bool,
    pub qos: u8,
    pub retain: bool,
    pub topic: String,
    pub packet_id: Option<u16>,
    pub payload: Vec<u8>,
}

#[derive(Debug, Clone, PartialEq, Eq)]
pub struct Subscribe {
    pub packet_id: u16,
    pub filters: Vec<SubscribeFilter>,
}

#[derive(Debug, Clone, PartialEq, Eq)]
pub struct SubscribeFilter {
    pub topic: String,
    pub qos: u8,
}

#[derive(Debug, Clone, PartialEq, Eq)]
pub struct SubAck {
    pub packet_id: u16,
    pub codes: Vec<u8>,
}

#[derive(Debug, Clone, PartialEq, Eq)]
pub struct Unsubscribe {
    pub packet_id: u16,
    pub filters: Vec<String>,
}

/// Why the front of a receive buffer is not a packet.
#[derive(Debug)]
pub enum CodecError {
    Malformed(&'static str),
    TooLarge,
}

// ------------------------------------------------------------------ models

#[verifier::ext_equal]
pub struct ConnectView {
    pub protocol_level: u8,
    pub clean_session: bool,
    pub keep_alive: u16,
    pub client_id: Seq<char>,
    pub username: Option<Seq<char>>,
    pub password: Option<Seq<u8>>,
}

#[verifier::ext_equal]
pub struct PublishView {
    pub dup: bool,
    pub qos: u8,
    pub retain: bool,
    pub topic: Seq<char>,
    pub packet_id: Option<u16>,
    pub payload: Seq<u8>,
}

#[verifier::ext_equal]
pub struct FilterView {
    pub topic: Seq<char>,
    pub qos: u8,
}

/// A packet as a mathematical value.
#[verifier::ext_equal]
#[allow(inconsistent_fields)]
pub enum PacketView {
    Connect(ConnectView),
    ConnAck { session_present: bool, code: u8 },
    Publish(PublishView),
    PubAck(u16),
    PubRec(u16),
    PubRel(u16),
    PubComp(u16),
    Subscribe { packet_id: u16, filters: Seq<FilterView> },
    SubAck { packet_id: u16, codes: Seq<u8> },
    Unsubscribe { packet_id: u16, filters: Seq<Seq<char>> },
    UnsubAck(u16),
    PingReq,
    PingResp,
    Disconnect,
}

/// A codec error as a mathematical value.
pub enum Fault {
    Malformed(Seq<char>),
    TooLarge,
}

impl View for Connect {
    type V = ConnectView;

    open spec fn view(&self) -> ConnectView {
        ConnectView {
            protocol_level: self.protocol_level,
            clean_session: self.clean_session,
            keep_alive: self.keep_alive,
            client_id: self.client_id@,
            username: text::opt_text(self.username),
            password: match self.password {
                Some(bytes) => Some(bytes@),
                None => None,
            },
        }
    }
}

impl View for Publish {
    type V = PublishView;

    open spec fn view(&self) -> PublishView {
        PublishView {
            dup: self.dup,
            qos: self.qos,
            retain: self.retain,
            topic: self.topic@,
            packet_id: self.packet_id,
            payload: self.payload@,
        }
    }
}

impl View for SubscribeFilter {
    type V = FilterView;

    open spec fn view(&self) -> FilterView {
        FilterView { topic: self.topic@, qos: self.qos }
    }
}

impl View for Packet {
    type V = PacketView;

    open spec fn view(&self) -> PacketView {
        match self {
            Packet::Connect(c) => PacketView::Connect(c@),
            Packet::ConnAck(a) => PacketView::ConnAck {
                session_present: a.session_present,
                code: a.code,
            },
            Packet::Publish(p) => PacketView::Publish(p@),
            Packet::PubAck { packet_id } => PacketView::PubAck(*packet_id),
            Packet::PubRec { packet_id } => PacketView::PubRec(*packet_id),
            Packet::PubRel { packet_id } => PacketView::PubRel(*packet_id),
            Packet::PubComp { packet_id } => PacketView::PubComp(*packet_id),
            Packet::Subscribe(s) => PacketView::Subscribe {
                packet_id: s.packet_id,
                filters: filter_views(s.filters@),
            },
            Packet::SubAck(a) => PacketView::SubAck { packet_id: a.packet_id, codes: a.codes@ },
            Packet::Unsubscribe(u) => PacketView::Unsubscribe {
                packet_id: u.packet_id,
                filters: text::texts(u.filters@),
            },
            Packet::UnsubAck { packet_id } => PacketView::UnsubAck(*packet_id),
            Packet::PingReq => PacketView::PingReq,
            Packet::PingResp => PacketView::PingResp,
            Packet::Disconnect => PacketView::Disconnect,
        }
    }
}

impl View for CodecError {
    type V = Fault;

    open spec fn view(&self) -> Fault {
        match self {
            CodecError::Malformed(reason) => Fault::Malformed(reason@),
            CodecError::TooLarge => Fault::TooLarge,
        }
    }
}

pub open spec fn filter_views(filters: Seq<SubscribeFilter>) -> Seq<FilterView> {
    filters.map_values(|f: SubscribeFilter| f@)
}

// ---------------------------------------------------------------- encoding

pub open spec fn min(a: int, b: int) -> int {
    if a < b {
        a
    } else {
        b
    }
}

/// The two bytes of a number, most significant first.
pub open spec fn be16(v: u16) -> Seq<u8> {
    seq![(v / 256) as u8, (v % 256) as u8]
}

/// A length-prefixed field; what does not fit the prefix is cut off.
pub open spec fn field(bytes: Seq<u8>) -> Seq<u8> {
    let n = min(bytes.len() as int, 65535);
    be16(n as u16) + bytes.take(n)
}

pub open spec fn text_field(s: Seq<char>) -> Seq<u8> {
    field(encode_utf8(s))
}

/// The remaining length: seven bits per byte, low bits first, the high bit set
/// on every byte but the last.
pub open spec fn length_bytes(n: nat) -> Seq<u8>
    decreases n,
{
    if n < 128 {
        seq![n as u8]
    } else {
        seq![(n % 128 + 128) as u8] + length_bytes(n / 128)
    }
}

/// A whole packet: fixed header, remaining length, body.
pub open spec fn frame(packet_type: u8, flags: u8, body: Seq<u8>) -> Seq<u8> {
    seq![(packet_type << 4) | (flags & 0x0f)] + length_bytes(body.len()) + body
}

pub open spec fn bit(set: bool, mask: u8) -> u8 {
    if set {
        mask
    } else {
        0u8
    }
}

pub open spec fn connect_flags(c: ConnectView) -> u8 {
    bit(c.clean_session, 0x02) | bit(c.username is Some, 0x80) | bit(c.password is Some, 0x40)
}

pub open spec fn connect_body(c: ConnectView) -> Seq<u8> {
    let head = if c.protocol_level == 3 {
        text_field("MQIsdp"@).push(3u8)
    } else {
        text_field("MQTT"@).push(4u8)
    };
    let fixed = head.push(connect_flags(c)) + be16(c.keep_alive) + text_field(c.client_id);
    let named = match c.username {
        Some(username) => fixed + text_field(username),
        None => fixed,
    };
    match c.password {
        Some(password) => named + field(password),
        None => named,
    }
}

pub open spec fn sent_qos(qos: u8) -> u8 {
    if qos < 2 {
        qos
    } else {
        2u8
    }
}

pub open spec fn publish_flags(p: PublishView) -> u8 {
    bit(p.dup, 0x08) | (sent_qos(p.qos) << 1u8) | bit(p.retain, 0x01)
}

/// A publish without an identifier is sent with identifier 1 where one is due.
pub open spec fn publish_body(p: PublishView) -> Seq<u8> {
    let named = text_field(p.topic);
    let numbered = if p.qos > 0 {
        named + be16(
            match p.packet_id {
                Some(id) => id,
                None => 1u16,
            },
        )
    } else {
        named
    };
    numbered + p.payload
}

pub open spec fn subscribe_fields(filters: Seq<FilterView>) -> Seq<u8>
    decreases filters.len(),
{
    if filters.len() == 0 {
        Seq::empty()
    } else {
        subscribe_fields(filters.drop_last()) + text_field(filters.last().topic).push(
            sent_qos(filters.last().qos),
        )
    }
}

pub open spec fn unsubscribe_fields(filters: Seq<Seq<char>>) -> Seq<u8>
    decreases filters.len(),
{
    if filters.len() == 0 {
        Seq::empty()
    } else {
        unsubscribe_fields(filters.drop_last()) + text_field(filters.last())
    }
}

/// Type, flags and body of a packet.
pub open spec fn parts(packet: PacketView) -> (u8, u8, Seq<u8>) {
    match packet {
        PacketView::Connect(c) => (1u8, 0u8, connect_body(c)),
        PacketView::ConnAck { session_present, code } => (
            2u8,
            0u8,
            seq![bit(session_present, 1u8), code],
        ),
        PacketView::Publish(p) => (3u8, publish_flags(p), publish_body(p)),
        PacketView::PubAck(id) => (4u8, 0u8, be16(id)),
        PacketView::PubRec(id) => (5u8, 0u8, be16(id)),
        PacketView::PubRel(id) => (6u8, 2u8, be16(id)),
        PacketView::PubComp(id) => (7u8, 0u8, be16(id)),
        PacketView::Subscribe { packet_id, filters } => (
            8u8,
            2u8,
            be16(packet_id) + subscribe_fields(filters),
        ),
        PacketView::SubAck { packet_id, codes } => (9u8, 0u8, be16(packet_id) + codes),
        PacketView::Unsubscribe { packet_id, filters } => (
            10u8,
            2u8,
            be16(packet_id) + unsubscribe_fields(filters),
        ),
        PacketView::UnsubAck(id) => (11u8, 0u8, be16(id)),
        PacketView::PingReq => (12u8, 0u8, Seq::empty()),
        PacketView::PingResp => (13u8, 0u8, Seq::empty()),
        PacketView::Disconnect => (14u8, 0u8, Seq::empty()),
    }
}

/// The bytes of a packet.
pub open spec fn encoding(packet: PacketView) -> Seq<u8> {
    let (packet_type, flags, body) = parts(packet);
    frame(packet_type, flags, body)
}

// ---------------------------------------------------------------- decoding

pub open spec fn malformed<T>(reason: Seq<char>) -> Result<T, Fault> {
    Err(Fault::Malformed(reason))
}

pub open spec fn number16(hi: u8, lo: u8) -> u16 {
    (hi * 256 + lo) as u16
}

pub open spec fn take_u8(d: Seq<u8>) -> Result<(u8, Seq<u8>), Fault> {
    if d.len() < 1 {
        malformed("truncated"@)
    } else {
        Ok((d[0], d.skip(1)))
    }
}

pub open spec fn take_u16(d: Seq<u8>) -> Result<(u16, Seq<u8>), Fault> {
    if d.len() < 2 {
        malformed("truncated u16"@)
    } else {
        Ok((number16(d[0], d[1]), d.skip(2)))
    }
}

pub open spec fn take_field(d: Seq<u8>) -> Result<(Seq<u8>, Seq<u8>), Fault> {
    match take_u16(d) {
        Err(e) => Err(e),
        Ok((n, rest)) => if rest.len() < n {
            malformed("truncated bytes"@)
        } else {
            Ok((rest.take(n as int), rest.skip(n as int)))
        },
    }
}

pub open spec fn take_text(d: Seq<u8>) -> Result<(Seq<char>, Seq<u8>), Fault> {
    match take_field(d) {
        Err(e) => Err(e),
        Ok((bytes, rest)) => if valid_utf8(bytes) {
            Ok((decode_utf8(bytes), rest))
        } else {
            malformed("utf-8"@)
        },
    }
}

/// An optional text field, present if `present`.
pub open spec fn take_opt_text(d: Seq<u8>, present: bool) -> Result<
    (Option<Seq<char>>, Seq<u8>),
    Fault,
> {
    if present {
        match take_text(d) {
            Err(e) => Err(e),
            Ok((t, rest)) => Ok((Some(t), rest)),
        }
    } else {
        Ok((None, d))
    }
}

/// An optional field of raw bytes, present if `present`.
pub open spec fn take_opt_field(d: Seq<u8>, present: bool) -> Result<
    (Option<Seq<u8>>, Seq<u8>),
    Fault,
> {
    if present {
        match take_field(d) {
            Err(e) => Err(e),
            Ok((b, rest)) => Ok((Some(b), rest)),
        }
    } else {
        Ok((None, d))
    }
}

/// The will of a client, which is read and dropped.
pub open spec fn skip_will(d: Seq<u8>, present: bool) -> Result<Seq<u8>, Fault> {
    if present {
        match take_text(d) {
            Err(e) => Err(e),
            Ok((_, d1)) => match take_field(d1) {
                Err(e) => Err(e),
                Ok((_, d2)) => Ok(d2),
            },
        }
    } else {
        Ok(d)
    }
}

pub open spec fn known_protocol(name: Seq<char>, level: u8) -> bool {
    (name == "MQTT"@ && level == 4) || (name == "MQIsdp"@ && level == 3)
}

/// What a CONNECT packet says after its fixed fields.
pub open spec fn connect_tail(level: u8, flags: u8, keep_alive: u16, d: Seq<u8>) -> Result<
    ConnectView,
    Fault,
> {
    match take_text(d) {
        Err(e) => Err(e),
        Ok((client_id, d1)) => match skip_will(d1, flags & 0x04 != 0) {
            Err(e) => Err(e),
            Ok(d2) => match take_opt_text(d2, flags & 0x80 != 0) {
                Err(e) => Err(e),
                Ok((username, d3)) => match take_opt_field(d3, flags & 0x40 != 0) {
                    Err(e) => Err(e),
                    Ok((password, _)) => Ok(
                        ConnectView {
                            protocol_level: level,
                            clean_session: flags & 0x02 != 0,
                            keep_alive,
                            client_id,
                            username,
                            password,
                        },
                    ),
                },
            },
        },
    }
}

pub open spec fn connect_of(d: Seq<u8>) -> Result<ConnectView, Fault> {
    match take_text(d) {
        Err(e) => Err(e),
        Ok((name, d1)) => match take_u8(d1) {
            Err(e) => Err(e),
            Ok((level, d2)) => if !known_protocol(name, level) {
                malformed("unsupported protocol"@)
            } else {
                match take_u8(d2) {
                    Err(e) => Err(e),
                    Ok((flags, d3)) => if flags & 0x01 != 0 {
                        malformed("CONNECT reserved flag"@)
                    } else {
                        match take_u16(d3) {
                            Err(e) => Err(e),
                            Ok((keep_alive, d4)) => connect_tail(level, flags, keep_alive, d4),
                        }
                    },
                }
            },
        },
    }
}

/// The packet identifier, present where the quality of service is not 0.
pub open spec fn take_publish_id(d: Seq<u8>, qos: u8) -> Result<(Option<u16>, Seq<u8>), Fault> {
    if qos > 0 {
        match take_u16(d) {
            Err(e) => Err(e),
            Ok((id, rest)) => Ok((Some(id), rest)),
        }
    } else {
        Ok((None, d))
    }
}

pub open spec fn publish_of(flags: u8, d: Seq<u8>) -> Result<PublishView, Fault> {
    let qos = (flags >> 1) & 0x03;
    if qos > 2 {
        malformed("PUBLISH QoS"@)
    } else {
        match take_text(d) {
            Err(e) => Err(e),
            Ok((topic, d1)) => match take_publish_id(d1, qos) {
                Err(e) => Err(e),
                Ok((packet_id, d2)) => Ok(
                    PublishView {
                        dup: flags & 0x08 != 0,
                        qos,
                        retain: flags & 0x01 != 0,
                        topic,
                        packet_id,
                        payload: d2,
                    },
                ),
            },
        }
    }
}

/// Reads filters up to the end of `d`, behind those already read.
pub open spec fn take_filters(d: Seq<u8>, read: Seq<FilterView>) -> Result<Seq<FilterView>, Fault>
    decreases d.len(),
{
    if d.len() == 0 {
        Ok(read)
    } else {
        match take_text(d) {
            Err(e) => Err(e),
            Ok((topic, d1)) => match take_u8(d1) {
                Err(e) => Err(e),
                Ok((qos, d2)) => if qos > 2 {
                    malformed("SUBSCRIBE QoS"@)
                } else {
                    take_filters(d2, read.push(FilterView { topic, qos }))
                },
            },
        }
    }
}

/// Reads topic names up to the end of `d`, behind those already read.
pub open spec fn take_names(d: Seq<u8>, read: Seq<Seq<char>>) -> Result<Seq<Seq<char>>, Fault>
    decreases d.len(),
{
    if d.len() == 0 {
        Ok(read)
    } else {
        match take_text(d) {
            Err(e) => Err(e),
            Ok((name, d1)) => take_names(d1, read.push(name)),
        }
    }
}

pub open spec fn subscribe_of(d: Seq<u8>) -> Result<PacketView, Fault> {
    if d.len() < 2 {
        malformed("SUBSCRIBE"@)
    } else {
        match take_filters(d.skip(2), Seq::empty()) {
            Err(e) => Err(e),
            Ok(filters) => if filters.len() == 0 {
                malformed("SUBSCRIBE has no filters"@)
            } else {
                Ok(PacketView::Subscribe { packet_id: number16(d[0], d[1]), filters })
            },
        }
    }
}

pub open spec fn unsubscribe_of(d: Seq<u8>) -> Result<PacketView, Fault> {
    if d.len() < 2 {
        malformed("UNSUBSCRIBE"@)
    } else {
        match take_names(d.skip(2), Seq::empty()) {
            Err(e) => Err(e),
            Ok(filters) => if filters.len() == 0 {
                malformed("UNSUBSCRIBE has no filters"@)
            } else {
                Ok(PacketView::Unsubscribe { packet_id: number16(d[0], d[1]), filters })
            },
        }
    }
}

/// The body of a packet that holds its identifier and nothing else.
pub open spec fn id_of(d: Seq<u8>) -> Result<u16, Fault> {
    if d.len() != 2 {
        malformed("packet id"@)
    } else {
        Ok(number16(d[0], d[1]))
    }
}

pub open spec fn with_id(d: Seq<u8>, make: spec_fn(u16) -> PacketView) -> Result<
    PacketView,
    Fault,
> {
    match id_of(d) {
        Err(e) => Err(e),
        Ok(id) => Ok(make(id)),
    }
}

pub open spec fn empty_body(d: Seq<u8>, reason: Seq<char>, packet: PacketView) -> Result<
    PacketView,
    Fault,
> {
    if d.len() != 0 {
        malformed(reason)
    } else {
        Ok(packet)
    }
}

/// The packet with the given type, flags and body.
pub open spec fn payload_of(packet_type: u8, flags: u8, d: Seq<u8>) -> Result<PacketView, Fault> {
    if packet_type == 1 {
        if flags != 0 {
            malformed("CONNECT flags"@)
        } else {
            match connect_of(d) {
                Err(e) => Err(e),
                Ok(c) => Ok(PacketView::Connect(c)),
            }
        }
    } else if packet_type == 2 {
        if d.len() != 2 {
            malformed("CONNACK length"@)
        } else {
            Ok(PacketView::ConnAck { session_present: d[0] & 0x01 != 0, code: d[1] })
        }
    } else if packet_type == 3 {
        match publish_of(flags, d) {
            Err(e) => Err(e),
            Ok(p) => Ok(PacketView::Publish(p)),
        }
    } else if packet_type == 4 {
        with_id(d, |id: u16| PacketView::PubAck(id))
    } else if packet_type == 5 {
        with_id(d, |id: u16| PacketView::PubRec(id))
    } else if packet_type == 6 {
        if flags != 0x02 {
            malformed("PUBREL flags"@)
        } else {
            with_id(d, |id: u16| PacketView::PubRel(id))
        }
    } else if packet_type == 7 {
        with_id(d, |id: u16| PacketView::PubComp(id))
    } else if packet_type == 8 {
        if flags != 0x02 {
            malformed("SUBSCRIBE flags"@)
        } else {
            subscribe_of(d)
        }
    } else if packet_type == 9 {
        if d.len() < 2 {
            malformed("SUBACK"@)
        } else {
            Ok(PacketView::SubAck { packet_id: number16(d[0], d[1]), codes: d.skip(2) })
        }
    } else if packet_type == 10 {
        if flags != 0x02 {
            malformed("UNSUBSCRIBE flags"@)
        } else {
            unsubscribe_of(d)
        }
    } else if packet_type == 11 {
        with_id(d, |id: u16| PacketView::UnsubAck(id))
    } else if packet_type == 12 {
        empty_body(d, "PINGREQ"@, PacketView::PingReq)
    } else if packet_type == 13 {
        empty_body(d, "PINGRESP"@, PacketView::PingResp)
    } else if packet_type == 14 {
        empty_body(d, "DISCONNECT"@, PacketView::Disconnect)
    } else {
        malformed("unknown packet type"@)
    }
}

/// The remaining length that starts at byte `index` of `d`: its value and the
/// number of its bytes, or nothing while bytes are missing. It has at most four
/// bytes.
pub open spec fn length_at(d: Seq<u8>, index: int) -> Result<Option<(int, int)>, Fault>
    decreases d.len() - index,
{
    if index < 0 || index >= d.len() {
        Ok(None)
    } else if index >= 4 {
        malformed("remaining length"@)
    } else if d[index] < 128 {
        Ok(Some((d[index] as int, 1int)))
    } else {
        match length_at(d, index + 1) {
            Ok(Some((value, count))) => Ok(Some((d[index] - 128 + 128 * value, count + 1))),
            other => other,
        }
    }
}

/// What the front of a receive buffer holds, and what stays in the buffer.
pub open spec fn decoded(buf: Seq<u8>) -> (Result<Option<PacketView>, Fault>, Seq<u8>) {
    if buf.len() == 0 {
        (Ok(None), buf)
    } else {
        match length_at(buf.skip(1), 0) {
            Err(e) => (Err(e), buf),
            Ok(None) => (Ok(None), buf),
            Ok(Some((remaining, count))) => {
                let total = 1 + count + remaining;
                if remaining > MAX_PACKET_SIZE {
                    (Err(Fault::TooLarge), buf)
                } else if buf.len() < total {
                    (Ok(None), buf)
                } else {
                    let body = buf.subrange(1 + count, total);
                    (
                        match payload_of(buf[0] >> 4, buf[0] & 0x0f, body) {
                            Err(e) => Err(e),
                            Ok(packet) => Ok(Some(packet)),
                        },
                        buf.skip(total),
                    )
                }
            },
        }
    }
}

// ----------------------------------------------------------- executable part

impl Connect {
    /// The MQTT version that the client speaks, or nothing for an unknown level.
    pub fn protocol_version(&self) -> (r: &'static str)
        ensures
            r@ == (if self.protocol_level == 3 {
                "3.1"@
            } else if self.protocol_level == 4 {
                "3.1.1"@
            } else {
                ""@
            }),
    {
        match self.protocol_level {
            3 => "3.1",
            4 => "3.1.1",
            _ => "",
        }
    }
}

impl CodecError {
    /// The error as text.
    pub fn message(&self) -> (r: String)
        ensures
            r@ == (match self@ {
                Fault::Malformed(reason) => "malformed mqtt packet: "@ + reason,
                Fault::TooLarge => "mqtt packet exceeds 1048576 bytes"@,
            }),
    {
        match self {
            CodecError::Malformed(reason) => {
                let mut out: String = "malformed mqtt packet: ".to_string();
                out.append(reason);
                out
            },
            CodecError::TooLarge => "mqtt packet exceeds 1048576 bytes".to_string(),
        }
    }
}

/// The result of decoding as a mathematical value.
pub open spec fn result_view(r: Result<Option<Packet>, CodecError>) -> Result<
    Option<PacketView>,
    Fault,
> {
    match r {
        Err(e) => Err(e@),
        Ok(None) => Ok(None),
        Ok(Some(p)) => Ok(Some(p@)),
    }
}

fn push_u16(out: &mut Vec<u8>, v: u16)
    ensures
        final(out)@ == old(out)@ + be16(v),
{
    out.push((v / 256) as u8);
    out.push((v % 256) as u8);
    proof {
        assert(out@ =~= old(out)@ + be16(v));
    }
}

fn push_mqtt_bytes(out: &mut Vec<u8>, value: &[u8])
    ensures
        final(out)@ == old(out)@ + field(value@),
{
    let n: usize = if value.len() < 65535 {
        value.len()
    } else {
        65535
    };
    push_u16(out, n as u16);
    let head: &[u8] = vstd::slice::slice_subrange(value, 0, n);
    out.extend_from_slice(head);
    proof {
        assert(head@ =~= value@.take(n as int));
        assert(out@ =~= old(out)@ + field(value@));
    }
}

fn push_mqtt_string(out: &mut Vec<u8>, value: &str)
    ensures
        final(out)@ == old(out)@ + text_field(value@),
{
    push_mqtt_bytes(out, value.as_bytes());
}

/// Appends the remaining length `len`.
pub fn encode_remaining_length(len: usize, out: &mut Vec<u8>)
    ensures
        final(out)@ == old(out)@ + length_bytes(len as nat),
{
    let mut left: usize = len;
    while left >= 128
        invariant
            out@ + length_bytes(left as nat) == old(out)@ + length_bytes(len as nat),
        decreases left,
    {
        let ghost before = out@;
        let byte: u8 = (left % 128) as u8 + 128;
        proof {
            assert(length_bytes(left as nat) == seq![byte] + length_bytes((left / 128) as nat));
        }
        out.push(byte);
        left = left / 128;
        proof {
            assert(out@ + length_bytes(left as nat) =~= before + (seq![byte] + length_bytes(
                left as nat,
            )));
        }
    }
    out.push(left as u8);
    proof {
        assert(length_bytes(left as nat) =~= seq![left as u8]);
        assert(out@ =~= old(out)@ + length_bytes(len as nat));
    }
}

fn wrap(packet_type: u8, flags: u8, body: &Vec<u8>) -> (out: Vec<u8>)
    ensures
        out@ == frame(packet_type, flags, body@),
{
    let mut out: Vec<u8> = Vec::new();
    out.push((packet_type << 4) | (flags & 0x0f));
    encode_remaining_length(body.len(), &mut out);
    out.extend_from_slice(body.as_slice());
    proof {
        assert(out@ =~= frame(packet_type, flags, body@));
    }
    out
}

fn encode_id(packet_type: u8, flags: u8, packet_id: u16) -> (out: Vec<u8>)
    ensures
        out@ == frame(packet_type, flags, be16(packet_id)),
{
    let mut body: Vec<u8> = Vec::new();
    push_u16(&mut body, packet_id);
    proof {
        assert(body@ =~= be16(packet_id));
    }
    wrap(packet_type, flags, &body)
}

fn encode_empty(packet_type: u8) -> (out: Vec<u8>)
    ensures
        out@ == frame(packet_type, 0u8, Seq::empty()),
{
    let body: Vec<u8> = Vec::new();
    wrap(packet_type, 0, &body)
}

fn mask(set: bool, value: u8) -> (r: u8)
    ensures
        r == bit(set, value),
{
    if set {
        value
    } else {
        0
    }
}

fn encode_connect(connect: &Connect) -> (out: Vec<u8>)
    ensures
        out@ == encoding(PacketView::Connect(connect@)),
{
    let mut body: Vec<u8> = Vec::new();
    if connect.protocol_level == 3 {
        push_mqtt_string(&mut body, "MQIsdp");
        body.push(3);
    } else {
        push_mqtt_string(&mut body, "MQTT");
        body.push(4);
    }
    proof {
        assert(body@ =~= if connect.protocol_level == 3 {
            text_field("MQIsdp"@).push(3u8)
        } else {
            text_field("MQTT"@).push(4u8)
        });
    }
    let flags: u8 = mask(connect.clean_session, 0x02) | mask(connect.username.is_some(), 0x80)
        | mask(connect.password.is_some(), 0x40);
    body.push(flags);
    push_u16(&mut body, connect.keep_alive);
    push_mqtt_string(&mut body, connect.client_id.as_str());
    if let Some(username) = &connect.username {
        push_mqtt_string(&mut body, username.as_str());
    }
    if let Some(password) = &connect.password {
        push_mqtt_bytes(&mut body, password.as_slice());
    }
    proof {
        assert(body@ =~= connect_body(connect@));
    }
    wrap(1, 0, &body)
}

fn encode_publish(publish: &Publish) -> (out: Vec<u8>)
    ensures
        out@ == encoding(PacketView::Publish(publish@)),
{
    let qos: u8 = if publish.qos < 2 {
        publish.qos
    } else {
        2
    };
    let flags: u8 = mask(publish.dup, 0x08) | (qos << 1u8) | mask(publish.retain, 0x01);
    let mut body: Vec<u8> = Vec::new();
    push_mqtt_string(&mut body, publish.topic.as_str());
    if qos > 0 {
        let packet_id: u16 = match publish.packet_id {
            Some(id) => id,
            None => 1,
        };
        push_u16(&mut body, packet_id);
    }
    body.extend_from_slice(publish.payload.as_slice());
    proof {
        assert(body@ =~= publish_body(publish@));
    }
    wrap(3, flags, &body)
}

fn encode_subscribe(sub: &Subscribe) -> (out: Vec<u8>)
    ensures
        out@ == frame(8u8, 2u8, be16(sub.packet_id) + subscribe_fields(filter_views(sub.filters@))),
{
    let mut body: Vec<u8> = Vec::new();
    push_u16(&mut body, sub.packet_id);
    let ghost fs = filter_views(sub.filters@);
    let mut i: usize = 0;
    proof {
        assert(fs.take(0) =~= Seq::empty());
        assert(body@ =~= be16(sub.packet_id) + subscribe_fields(fs.take(0)));
    }
    while i < sub.filters.len()
        invariant
            i <= sub.filters.len(),
            fs == filter_views(sub.filters@),
            body@ == be16(sub.packet_id) + subscribe_fields(fs.take(i as int)),
        decreases sub.filters.len() - i,
    {
        let ghost before = body@;
        push_mqtt_string(&mut body, sub.filters[i].topic.as_str());
        let qos: u8 = if sub.filters[i].qos < 2 {
            sub.filters[i].qos
        } else {
            2
        };
        body.push(qos);
        proof {
            assert(fs.take(i + 1).drop_last() =~= fs.take(i as int));
            assert(fs.take(i + 1).last() == fs[i as int]);
            assert(body@ =~= be16(sub.packet_id) + subscribe_fields(fs.take(i + 1)));
        }
        i = i + 1;
    }
    proof {
        assert(fs.take(fs.len() as int) =~= fs);
    }
    wrap(8, 0x02, &body)
}

fn encode_unsubscribe(unsub: &Unsubscribe) -> (out: Vec<u8>)
    ensures
        out@ == frame(
            10u8,
            2u8,
            be16(unsub.packet_id) + unsubscribe_fields(text::texts(unsub.filters@)),
        ),
{
    let mut body: Vec<u8> = Vec::new();
    push_u16(&mut body, unsub.packet_id);
    let ghost fs = text::texts(unsub.filters@);
    let mut i: usize = 0;
    proof {
        assert(fs.take(0) =~= Seq::empty());
        assert(body@ =~= be16(unsub.packet_id) + unsubscribe_fields(fs.take(0)));
    }
    while i < unsub.filters.len()
        invariant
            i <= unsub.filters.len(),
            fs == text::texts(unsub.filters@),
            body@ == be16(unsub.packet_id) + unsubscribe_fields(fs.take(i as int)),
        decreases unsub.filters.len() - i,
    {
        push_mqtt_string(&mut body, unsub.filters[i].as_str());
        proof {
            assert(fs.take(i + 1).drop_last() =~= fs.take(i as int));
            assert(fs.take(i + 1).last() == fs[i as int]);
            assert(body@ =~= be16(unsub.packet_id) + unsubscribe_fields(fs.take(i + 1)));
        }
        i = i + 1;
    }
    proof {
        assert(fs.take(fs.len() as int) =~= fs);
    }
    wrap(10, 0x02, &body)
}

/// The bytes of a packet.
pub fn encode(packet: &Packet) -> (out: Vec<u8>)
    ensures
        out@ == encoding(packet@),
{
    match packet {
        Packet::Connect(connect) => encode_connect(connect),
        Packet::ConnAck(ack) => {
            let mut body: Vec<u8> = Vec::new();
            body.push(mask(ack.session_present, 1));
            body.push(ack.code);
            proof {
                assert(body@ =~= seq![bit(ack.session_present, 1u8), ack.code]);
            }
            wrap(2, 0, &body)
        },
        Packet::Publish(publish) => encode_publish(publish),
        Packet::PubAck { packet_id } => encode_id(4, 0, *packet_id),
        Packet::PubRec { packet_id } => encode_id(5, 0, *packet_id),
        Packet::PubRel { packet_id } => encode_id(6, 0x02, *packet_id),
        Packet::PubComp { packet_id } => encode_id(7, 0, *packet_id),
        Packet::Subscribe(sub) => encode_subscribe(sub),
        Packet::SubAck(ack) => {
            let mut body: Vec<u8> = Vec::new();
            push_u16(&mut body, ack.packet_id);
            body.extend_from_slice(ack.codes.as_slice());
            proof {
                assert(body@ =~= be16(ack.packet_id) + ack.codes@);
            }
            wrap(9, 0, &body)
        },
        Packet::Unsubscribe(unsub) => encode_unsubscribe(unsub),
        Packet::UnsubAck { packet_id } => encode_id(11, 0, *packet_id),
        Packet::PingReq => encode_empty(12),
        Packet::PingResp => encode_empty(13),
        Packet::Disconnect => encode_empty(14),
    }
}

/// `r` is what `spec` says, and `offset` has moved to the bytes that are left.
spec fn read_ok<T: View>(
    r: Result<T, CodecError>,
    spec: Result<(T::V, Seq<u8>), Fault>,
    data: Seq<u8>,
    offset: usize,
) -> bool {
    match spec {
        Ok((value, rest)) => {
            &&& r matches Ok(v) && v@ == value
            &&& offset <= data.len()
            &&& data.skip(offset as int) == rest
        },
        Err(e) => r matches Err(error) && error@ == e,
    }
}

fn read_u8(data: &[u8], offset: &mut usize) -> (r: Result<u8, CodecError>)
    requires
        *old(offset) <= data@.len(),
    ensures
        read_ok(r, take_u8(data@.skip(*old(offset) as int)), data@, *final(offset)),
{
    if *offset >= data.len() {
        return Err(CodecError::Malformed("truncated"));
    }
    let value: u8 = data[*offset];
    *offset = *offset + 1;
    proof {
        assert(data@.skip(*old(offset) as int).skip(1) =~= data@.skip(*offset as int));
    }
    Ok(value)
}

fn join_u16(hi: u8, lo: u8) -> (r: u16)
    ensures
        r == number16(hi, lo),
{
    hi as u16 * 256 + lo as u16
}

fn read_u16(data: &[u8], offset: &mut usize) -> (r: Result<u16, CodecError>)
    requires
        *old(offset) <= data@.len(),
    ensures
        read_ok(r, take_u16(data@.skip(*old(offset) as int)), data@, *final(offset)),
{
    if data.len() - *offset < 2 {
        return Err(CodecError::Malformed("truncated u16"));
    }
    let value: u16 = join_u16(data[*offset], data[*offset + 1]);
    *offset = *offset + 2;
    proof {
        assert(data@.skip(*old(offset) as int).skip(2) =~= data@.skip(*offset as int));
    }
    Ok(value)
}

fn read_mqtt_bytes(data: &[u8], offset: &mut usize) -> (r: Result<Vec<u8>, CodecError>)
    requires
        *old(offset) <= data@.len(),
    ensures
        read_ok(r, take_field(data@.skip(*old(offset) as int)), data@, *final(offset)),
{
    let len: usize = match read_u16(data, offset) {
        Ok(n) => n as usize,
        Err(e) => return Err(e),
    };
    if data.len() - *offset < len {
        return Err(CodecError::Malformed("truncated bytes"));
    }
    let start: usize = *offset;
    let bytes: Vec<u8> = copy_range(data, start, start + len);
    *offset = start + len;
    proof {
        let rest = data@.skip(start as int);
        assert(rest.take(len as int) =~= bytes@);
        assert(rest.skip(len as int) =~= data@.skip(*offset as int));
    }
    Ok(bytes)
}

fn copy_range(data: &[u8], from: usize, to: usize) -> (r: Vec<u8>)
    requires
        from <= to <= data@.len(),
    ensures
        r@ == data@.subrange(from as int, to as int),
{
    let mut out: Vec<u8> = Vec::new();
    out.extend_from_slice(vstd::slice::slice_subrange(data, from, to));
    proof {
        assert(out@ =~= data@.subrange(from as int, to as int));
    }
    out
}

fn read_mqtt_string(data: &[u8], offset: &mut usize) -> (r: Result<String, CodecError>)
    requires
        *old(offset) <= data@.len(),
    ensures
        read_ok(r, take_text(data@.skip(*old(offset) as int)), data@, *final(offset)),
{
    match read_mqtt_bytes(data, offset) {
        Err(e) => Err(e),
        Ok(bytes) => match text::text_from_utf8(bytes) {
            Some(s) => Ok(s),
            None => Err(CodecError::Malformed("utf-8")),
        },
    }
}

fn decode_connect(payload: &[u8]) -> (r: Result<Connect, CodecError>)
    ensures
        match r {
            Ok(c) => connect_of(payload@) == Ok::<ConnectView, Fault>(c@),
            Err(e) => connect_of(payload@) == Err::<ConnectView, Fault>(e@),
        },
{
    let mut offset: usize = 0;
    proof {
        assert(payload@.skip(0) =~= payload@);
    }
    let protocol: String = match read_mqtt_string(payload, &mut offset) {
        Ok(v) => v,
        Err(e) => return Err(e),
    };
    let level: u8 = match read_u8(payload, &mut offset) {
        Ok(v) => v,
        Err(e) => return Err(e),
    };
    let known: bool = (level == 4 && text::text_eq(protocol.as_str(), "MQTT")) || (level == 3
        && text::text_eq(protocol.as_str(), "MQIsdp"));
    if !known {
        return Err(CodecError::Malformed("unsupported protocol"));
    }
    let flags: u8 = match read_u8(payload, &mut offset) {
        Ok(v) => v,
        Err(e) => return Err(e),
    };
    if flags & 0x01 != 0 {
        return Err(CodecError::Malformed("CONNECT reserved flag"));
    }
    let keep_alive: u16 = match read_u16(payload, &mut offset) {
        Ok(v) => v,
        Err(e) => return Err(e),
    };
    let client_id: String = match read_mqtt_string(payload, &mut offset) {
        Ok(v) => v,
        Err(e) => return Err(e),
    };
    if flags & 0x04 != 0 {
        match read_mqtt_string(payload, &mut offset) {
            Ok(_) => {},
            Err(e) => return Err(e),
        }
        match read_mqtt_bytes(payload, &mut offset) {
            Ok(_) => {},
            Err(e) => return Err(e),
        }
    }
    let username: Option<String> = if flags & 0x80 != 0 {
        match read_mqtt_string(payload, &mut offset) {
            Ok(v) => Some(v),
            Err(e) => return Err(e),
        }
    } else {
        None
    };
    let password: Option<Vec<u8>> = if flags & 0x40 != 0 {
        match read_mqtt_bytes(payload, &mut offset) {
            Ok(v) => Some(v),
            Err(e) => return Err(e),
        }
    } else {
        None
    };
    Ok(
        Connect {
            protocol_level: level,
            clean_session: flags & 0x02 != 0,
            keep_alive,
            client_id,
            username,
            password,
        },
    )
}

fn decode_publish(flags: u8, payload: &[u8]) -> (r: Result<Publish, CodecError>)
    ensures
        match r {
            Ok(p) => publish_of(flags, payload@) == Ok::<PublishView, Fault>(p@),
            Err(e) => publish_of(flags, payload@) == Err::<PublishView, Fault>(e@),
        },
{
    let qos: u8 = (flags >> 1) & 0x03;
    if qos > 2 {
        return Err(CodecError::Malformed("PUBLISH QoS"));
    }
    let mut offset: usize = 0;
    proof {
        assert(payload@.skip(0) =~= payload@);
    }
    let topic: String = match read_mqtt_string(payload, &mut offset) {
        Ok(v) => v,
        Err(e) => return Err(e),
    };
    let packet_id: Option<u16> = if qos > 0 {
        match read_u16(payload, &mut offset) {
            Ok(v) => Some(v),
            Err(e) => return Err(e),
        }
    } else {
        None
    };
    let body: Vec<u8> = copy_range(payload, offset, payload.len());
    proof {
        assert(body@ =~= payload@.skip(offset as int));
    }
    Ok(
        Publish {
            dup: flags & 0x08 != 0,
            qos,
            retain: flags & 0x01 != 0,
            topic,
            packet_id,
            payload: body,
        },
    )
}

fn decode_subscribe(payload: &[u8]) -> (r: Result<Subscribe, CodecError>)
    ensures
        match r {
            Ok(s) => subscribe_of(payload@) == Ok::<PacketView, Fault>(Packet::Subscribe(s)@),
            Err(e) => subscribe_of(payload@) == Err::<PacketView, Fault>(e@),
        },
{
    if payload.len() < 2 {
        return Err(CodecError::Malformed("SUBSCRIBE"));
    }
    let packet_id: u16 = join_u16(payload[0], payload[1]);
    let mut offset: usize = 2;
    let mut filters: Vec<SubscribeFilter> = Vec::new();
    proof {
        assert(filter_views(filters@) =~= Seq::empty());
    }
    while offset < payload.len()
        invariant
            offset <= payload@.len(),
            payload@.len() >= 2,
            take_filters(payload@.skip(offset as int), filter_views(filters@)) == take_filters(
                payload@.skip(2),
                Seq::empty(),
            ),
        decreases payload.len() - offset,
    {
        let topic: String = match read_mqtt_string(payload, &mut offset) {
            Ok(v) => v,
            Err(e) => return Err(e),
        };
        let qos: u8 = match read_u8(payload, &mut offset) {
            Ok(v) => v,
            Err(e) => return Err(e),
        };
        if qos > 2 {
            return Err(CodecError::Malformed("SUBSCRIBE QoS"));
        }
        let ghost before = filter_views(filters@);
        filters.push(SubscribeFilter { topic, qos });
        proof {
            assert(filter_views(filters@) =~= before.push(FilterView { topic: topic@, qos }));
        }
    }
    if filters.len() == 0 {
        return Err(CodecError::Malformed("SUBSCRIBE has no filters"));
    }
    Ok(Subscribe { packet_id, filters })
}

fn decode_unsubscribe(payload: &[u8]) -> (r: Result<Unsubscribe, CodecError>)
    ensures
        match r {
            Ok(s) => unsubscribe_of(payload@) == Ok::<PacketView, Fault>(Packet::Unsubscribe(s)@),
            Err(e) => unsubscribe_of(payload@) == Err::<PacketView, Fault>(e@),
        },
{
    if payload.len() < 2 {
        return Err(CodecError::Malformed("UNSUBSCRIBE"));
    }
    let packet_id: u16 = join_u16(payload[0], payload[1]);
    let mut offset: usize = 2;
    let mut filters: Vec<String> = Vec::new();
    proof {
        assert(text::texts(filters@) =~= Seq::empty());
    }
    while offset < payload.len()
        invariant
            offset <= payload@.len(),
            payload@.len() >= 2,
            take_names(payload@.skip(offset as int), text::texts(filters@)) == take_names(
                payload@.skip(2),
                Seq::empty(),
            ),
        decreases payload.len() - offset,
    {
        let name: String = match read_mqtt_string(payload, &mut offset) {
            Ok(v) => v,
            Err(e) => return Err(e),
        };
        let ghost before = text::texts(filters@);
        filters.push(name);
        proof {
            assert(text::texts(filters@) =~= before.push(name@));
        }
    }
    if filters.len() == 0 {
        return Err(CodecError::Malformed("UNSUBSCRIBE has no filters"));
    }
    Ok(Unsubscribe { packet_id, filters })
}

fn require_packet_id(payload: &[u8]) -> (r: Result<u16, CodecError>)
    ensures
        match r {
            Ok(id) => id_of(payload@) == Ok::<u16, Fault>(id),
            Err(e) => id_of(payload@) == Err::<u16, Fault>(e@),
        },
{
    if payload.len() != 2 {
        return Err(CodecError::Malformed("packet id"));
    }
    Ok(join_u16(payload[0], payload[1]))
}

fn decode_payload(packet_type: u8, flags: u8, payload: &[u8]) -> (r: Result<Packet, CodecError>)
    ensures
        match r {
            Ok(p) => payload_of(packet_type, flags, payload@) == Ok::<PacketView, Fault>(p@),
            Err(e) => payload_of(packet_type, flags, payload@) == Err::<PacketView, Fault>(e@),
        },
{
    match packet_type {
        1 => {
            if flags != 0 {
                return Err(CodecError::Malformed("CONNECT flags"));
            }
            match decode_connect(payload) {
                Ok(connect) => Ok(Packet::Connect(connect)),
                Err(e) => Err(e),
            }
        },
        2 => {
            if payload.len() != 2 {
                return Err(CodecError::Malformed("CONNACK length"));
            }
            Ok(
                Packet::ConnAck(
                    ConnAck { session_present: payload[0] & 0x01 != 0, code: payload[1] },
                ),
            )
        },
        3 => match decode_publish(flags, payload) {
            Ok(publish) => Ok(Packet::Publish(publish)),
            Err(e) => Err(e),
        },
        4 => match require_packet_id(payload) {
            Ok(packet_id) => Ok(Packet::PubAck { packet_id }),
            Err(e) => Err(e),
        },
        5 => match require_packet_id(payload) {
            Ok(packet_id) => Ok(Packet::PubRec { packet_id }),
            Err(e) => Err(e),
        },
        6 => {
            if flags != 0x02 {
                return Err(CodecError::Malformed("PUBREL flags"));
            }
            match require_packet_id(payload) {
                Ok(packet_id) => Ok(Packet::PubRel { packet_id }),
                Err(e) => Err(e),
            }
        },
        7 => match require_packet_id(payload) {
            Ok(packet_id) => Ok(Packet::PubComp { packet_id }),
            Err(e) => Err(e),
        },
        8 => {
            if flags != 0x02 {
                return Err(CodecError::Malformed("SUBSCRIBE flags"));
            }
            match decode_subscribe(payload) {
                Ok(sub) => Ok(Packet::Subscribe(sub)),
                Err(e) => Err(e),
            }
        },
        9 => {
            if payload.len() < 2 {
                return Err(CodecError::Malformed("SUBACK"));
            }
            let codes: Vec<u8> = copy_range(payload, 2, payload.len());
            proof {
                assert(codes@ =~= payload@.skip(2));
            }
            Ok(Packet::SubAck(SubAck { packet_id: join_u16(payload[0], payload[1]), codes }))
        },
        10 => {
            if flags != 0x02 {
                return Err(CodecError::Malformed("UNSUBSCRIBE flags"));
            }
            match decode_unsubscribe(payload) {
                Ok(unsub) => Ok(Packet::Unsubscribe(unsub)),
                Err(e) => Err(e),
            }
        },
        11 => match require_packet_id(payload) {
            Ok(packet_id) => Ok(Packet::UnsubAck { packet_id }),
            Err(e) => Err(e),
        },
        12 => {
            if payload.len() != 0 {
                return Err(CodecError::Malformed("PINGREQ"));
            }
            Ok(Packet::PingReq)
        },
        13 => {
            if payload.len() != 0 {
                return Err(CodecError::Malformed("PINGRESP"));
            }
            Ok(Packet::PingResp)
        },
        14 => {
            if payload.len() != 0 {
                return Err(CodecError::Malformed("DISCONNECT"));
            }
            Ok(Packet::Disconnect)
        },
        _ => Err(CodecError::Malformed("unknown packet type")),
    }
}

/// The remaining length at the front of `buf[1..]`: its value and the length
/// of the fixed header.
fn decode_remaining_length(buf: &Vec<u8>) -> (r: Result<Option<(usize, usize)>, CodecError>)
    requires
        buf@.len() > 0,
    ensures
        match length_at(buf@.skip(1), 0) {
            Ok(Some((value, count))) => r matches Ok(Some((v, header))) && v == value && header
                == count + 1 && 1 <= count <= 4 && 0 <= value < 268435456,
            Ok(None) => r matches Ok(None),
            Err(e) => r matches Err(error) && error@ == e,
        },
{
    let ghost d = buf@.skip(1);
    let mut value: usize = 0;
    let mut multiplier: usize = 1;
    let mut index: usize = 0;
    while index + 1 < buf.len()
        invariant
            d == buf@.skip(1),
            index < buf.len(),
            index <= 4,
            index == 0 ==> multiplier == 1,
            index == 1 ==> multiplier == 128,
            index == 2 ==> multiplier == 16384,
            index == 3 ==> multiplier == 2097152,
            index == 4 ==> multiplier == 268435456,
            value < multiplier,
            match length_at(d, index as int) {
                Ok(Some((v, n))) => length_at(d, 0) == Ok::<Option<(int, int)>, Fault>(
                    Some((value + multiplier * v, index + n)),
                ),
                other => length_at(d, 0) == other,
            },
        decreases buf.len() - index,
    {
        if index >= 4 {
            return Err(CodecError::Malformed("remaining length"));
        }
        let byte: u8 = buf[index + 1];
        assert(d[index as int] == byte);
        assert(byte & 0x7f == byte % 128) by (bit_vector);
        assert((byte & 0x80 == 0) == (byte < 128)) by (bit_vector);
        let low: usize = (byte & 0x7f) as usize;
        let ghost before = value;
        assert(low * multiplier <= 127 * multiplier) by (nonlinear_arith)
            requires
                low <= 127,
        ;
        value = value + low * multiplier;
        if byte & 0x80 == 0 {
            proof {
                assert(multiplier * (byte as int) == low * multiplier) by (nonlinear_arith)
                    requires
                        low == byte,
                ;
            }
            return Ok(Some((value, index + 2)));
        }
        proof {
            if let Ok(Some((v, n))) = length_at(d, index + 1) {
                assert(before + multiplier * (byte - 128 + 128 * v) == value + (multiplier * 128)
                    * v) by (nonlinear_arith)
                    requires
                        value == before + low * multiplier,
                        low == byte - 128,
                ;
            }
        }
        multiplier = multiplier * 128;
        index = index + 1;
    }
    Ok(None)
}

/// Pull one packet from the front of `buf`. Leaves unread bytes in place.
/// `Ok(None)` means more bytes are needed.
pub fn decode_one(buf: &mut Vec<u8>) -> (r: Result<Option<Packet>, CodecError>)
    ensures
        result_view(r) == decoded(old(buf)@).0,
        final(buf)@ == decoded(old(buf)@).1,
{
    if buf.len() == 0 {
        return Ok(None);
    }
    let first: u8 = buf[0];
    let (remaining, header_len): (usize, usize) = match decode_remaining_length(buf) {
        Err(e) => return Err(e),
        Ok(None) => return Ok(None),
        Ok(Some(parsed)) => parsed,
    };
    if remaining > MAX_PACKET_SIZE {
        return Err(CodecError::TooLarge);
    }
    let total: usize = header_len + remaining;
    if buf.len() < total {
        return Ok(None);
    }
    let payload: Vec<u8> = copy_range(buf.as_slice(), header_len, total);
    let mut rest: Vec<u8> = buf.split_off(total);
    std::mem::swap(buf, &mut rest);
    proof {
        assert(buf@ =~= old(buf)@.skip(total as int));
    }
    match decode_payload(first >> 4, first & 0x0f, payload.as_slice()) {
        Ok(packet) => Ok(Some(packet)),
        Err(e) => Err(e),
    }
}

// -------------------------------------------------------------------- laws

/// Text that a length-prefixed field can hold.
pub open spec fn fits(s: Seq<char>) -> bool {
    encode_utf8(s).len() <= 65535
}

/// Packets that the wire format can express.
pub open spec fn encodable(packet: PacketView) -> bool {
    &&& parts(packet).2.len() <= MAX_PACKET_SIZE
    &&& match packet {
        PacketView::Connect(c) => {
            &&& c.protocol_level == 3 || c.protocol_level == 4
            &&& fits(c.client_id)
            &&& c.username matches Some(username) ==> fits(username)
            &&& c.password matches Some(password) ==> password.len() <= 65535
        },
        PacketView::Publish(p) => {
            &&& p.qos <= 2
            &&& fits(p.topic)
            &&& p.packet_id is Some <==> p.qos > 0
        },
        PacketView::Subscribe { packet_id, filters } => {
            &&& filters.len() > 0
            &&& forall|i: int|
                0 <= i < filters.len() ==> fits((#[trigger] filters[i]).topic) && filters[i].qos
                    <= 2
        },
        PacketView::Unsubscribe { packet_id, filters } => {
            &&& filters.len() > 0
            &&& forall|i: int| 0 <= i < filters.len() ==> fits(#[trigger] filters[i])
        },
        _ => true,
    }
}

proof fn lemma_take_u16(v: u16, rest: Seq<u8>)
    ensures
        take_u16(be16(v) + rest) == Ok::<(u16, Seq<u8>), Fault>((v, rest)),
        number16(be16(v)[0], be16(v)[1]) == v,
{
    assert((be16(v) + rest).skip(2) =~= rest);
}

proof fn lemma_take_field(bytes: Seq<u8>, rest: Seq<u8>)
    requires
        bytes.len() <= 65535,
    ensures
        take_field(field(bytes) + rest) == Ok::<(Seq<u8>, Seq<u8>), Fault>((bytes, rest)),
{
    let n = bytes.len() as u16;
    lemma_take_u16(n, bytes + rest);
    assert(bytes.take(n as int) =~= bytes);
    assert(field(bytes) + rest =~= be16(n) + (bytes + rest));
    assert((bytes + rest).take(n as int) =~= bytes);
    assert((bytes + rest).skip(n as int) =~= rest);
}

proof fn lemma_take_text(s: Seq<char>, rest: Seq<u8>)
    requires
        fits(s),
    ensures
        take_text(text_field(s) + rest) == Ok::<(Seq<char>, Seq<u8>), Fault>((s, rest)),
{
    lemma_take_field(encode_utf8(s), rest);
    encode_utf8_valid_utf8(s);
    encode_utf8_decode_utf8(s);
}

proof fn lemma_take_filter(filter: FilterView, tail: Seq<u8>, read: Seq<FilterView>)
    requires
        fits(filter.topic),
        filter.qos <= 2,
    ensures
        take_filters(text_field(filter.topic).push(filter.qos) + tail, read) == take_filters(
            tail,
            read.push(filter),
        ),
{
    let d = text_field(filter.topic).push(filter.qos) + tail;
    let d1 = seq![filter.qos] + tail;
    lemma_take_text(filter.topic, d1);
    assert(d =~= text_field(filter.topic) + d1);
    assert(take_u8(d1) == Ok::<(u8, Seq<u8>), Fault>((filter.qos, tail))) by {
        assert(d1.skip(1) =~= tail);
    }
    assert(filter == FilterView { topic: filter.topic, qos: filter.qos });
}

proof fn lemma_take_filters(filters: Seq<FilterView>, tail: Seq<u8>, read: Seq<FilterView>)
    requires
        forall|i: int|
            0 <= i < filters.len() ==> fits((#[trigger] filters[i]).topic) && filters[i].qos <= 2,
    ensures
        take_filters(subscribe_fields(filters) + tail, read) == take_filters(tail, read + filters),
    decreases filters.len(),
{
    if filters.len() == 0 {
        assert(subscribe_fields(filters) + tail =~= tail);
        assert(read + filters =~= read);
    } else {
        let init = filters.drop_last();
        let last = filters.last();
        assert(last == filters[filters.len() - 1]);
        assert forall|i: int| 0 <= i < init.len() implies fits((#[trigger] init[i]).topic)
            && init[i].qos <= 2 by {
            assert(init[i] == filters[i]);
        }
        let own = text_field(last.topic).push(last.qos);
        lemma_take_filters(init, own + tail, read);
        assert(subscribe_fields(filters) + tail =~= subscribe_fields(init) + (own + tail));
        lemma_take_filter(last, tail, read + init);
        assert((read + init).push(last) =~= read + filters);
    }
}

proof fn lemma_take_names(names: Seq<Seq<char>>, tail: Seq<u8>, read: Seq<Seq<char>>)
    requires
        forall|i: int| 0 <= i < names.len() ==> fits(#[trigger] names[i]),
    ensures
        take_names(unsubscribe_fields(names) + tail, read) == take_names(tail, read + names),
    decreases names.len(),
{
    if names.len() == 0 {
        assert(unsubscribe_fields(names) + tail =~= tail);
        assert(read + names =~= read);
    } else {
        let init = names.drop_last();
        let last = names.last();
        assert(last == names[names.len() - 1]);
        assert forall|i: int| 0 <= i < init.len() implies fits(#[trigger] init[i]) by {
            assert(init[i] == names[i]);
        }
        let own = text_field(last);
        lemma_take_names(init, own + tail, read);
        assert(unsubscribe_fields(names) + tail =~= unsubscribe_fields(init) + (own + tail));
        lemma_take_text(last, tail);
        assert((read + init).push(last) =~= read + names);
    }
}

proof fn lemma_connect_flags(clean: bool, user: bool, pass: bool)
    ensures
        ({
            let f = bit(clean, 0x02) | bit(user, 0x80) | bit(pass, 0x40);
            &&& f & 0x01 == 0
            &&& f & 0x04 == 0
            &&& (f & 0x02 != 0) == clean
            &&& (f & 0x80 != 0) == user
            &&& (f & 0x40 != 0) == pass
        }),
{
    let a = bit(clean, 0x02);
    let b = bit(user, 0x80);
    let c = bit(pass, 0x40);
    let f = a | b | c;
    assert((a == 0 || a == 2) && (b == 0 || b == 0x80) && (c == 0 || c == 0x40) && f == a | b | c
        ==> f & 0x01 == 0 && f & 0x04 == 0 && (f & 0x02 != 0) == (a != 0) && (f & 0x80 != 0) == (b
        != 0) && (f & 0x40 != 0) == (c != 0)) by (bit_vector);
}

proof fn lemma_publish_flags(dup: bool, qos: u8, retain: bool)
    requires
        qos <= 2,
    ensures
        ({
            let f = bit(dup, 0x08) | (qos << 1u8) | bit(retain, 0x01);
            &&& f & 0x0f == f
            &&& (f >> 1) & 0x03 == qos
            &&& (f & 0x08 != 0) == dup
            &&& (f & 0x01 != 0) == retain
        }),
{
    let a = bit(dup, 0x08);
    let c = bit(retain, 0x01);
    let f = a | (qos << 1u8) | c;
    assert((a == 0 || a == 8) && qos <= 2 && (c == 0 || c == 1) && f == a | (qos << 1u8) | c ==> f
        & 0x0f == f && (f >> 1) & 0x03 == qos && (f & 0x08 != 0) == (a != 0) && (f & 0x01 != 0) == (
    c != 0)) by (bit_vector);
}

spec fn connect_options(c: ConnectView) -> Seq<u8> {
    let secret = match c.password {
        Some(password) => field(password),
        None => Seq::empty(),
    };
    match c.username {
        Some(username) => text_field(username) + secret,
        None => secret,
    }
}

proof fn lemma_connect_tail(c: ConnectView)
    requires
        encodable(PacketView::Connect(c)),
    ensures
        connect_tail(
            c.protocol_level,
            connect_flags(c),
            c.keep_alive,
            text_field(c.client_id) + connect_options(c),
        ) == Ok::<ConnectView, Fault>(c),
{
    let secret = match c.password {
        Some(password) => field(password),
        None => Seq::empty(),
    };
    lemma_connect_flags(c.clean_session, c.username is Some, c.password is Some);
    lemma_take_text(c.client_id, connect_options(c));
    if let Some(username) = c.username {
        lemma_take_text(username, secret);
    }
    if let Some(password) = c.password {
        lemma_take_field(password, Seq::empty());
        assert(field(password) + Seq::<u8>::empty() =~= field(password));
    }
}

proof fn lemma_connect_head(name: Seq<char>, level: u8, flags: u8, keep_alive: u16, d4: Seq<u8>)
    requires
        fits(name),
        known_protocol(name, level),
        flags & 0x01 == 0,
    ensures
        connect_of(text_field(name) + (seq![level] + (seq![flags] + (be16(keep_alive) + d4))))
            == connect_tail(level, flags, keep_alive, d4),
{
    let d3 = be16(keep_alive) + d4;
    let d2 = seq![flags] + d3;
    let d1 = seq![level] + d2;
    lemma_take_text(name, d1);
    assert(take_u8(d1) == Ok::<(u8, Seq<u8>), Fault>((level, d2))) by {
        assert(d1.skip(1) =~= d2);
    }
    assert(take_u8(d2) == Ok::<(u8, Seq<u8>), Fault>((flags, d3))) by {
        assert(d2.skip(1) =~= d3);
    }
    lemma_take_u16(keep_alive, d4);
}

proof fn lemma_connect_roundtrip(c: ConnectView)
    requires
        encodable(PacketView::Connect(c)),
    ensures
        connect_of(connect_body(c)) == Ok::<ConnectView, Fault>(c),
{
    let flags = connect_flags(c);
    let d4 = text_field(c.client_id) + connect_options(c);
    let name = if c.protocol_level == 3 {
        "MQIsdp"@
    } else {
        "MQTT"@
    };
    assert(fits(name)) by {
        reveal_strlit("MQIsdp");
        reveal_strlit("MQTT");
        assert(is_ascii_chars(name));
        is_ascii_chars_encode_utf8(name);
    }
    lemma_connect_flags(c.clean_session, c.username is Some, c.password is Some);
    lemma_connect_head(name, c.protocol_level, flags, c.keep_alive, d4);
    lemma_connect_tail(c);
    lemma_connect_layout(c, name);
}

proof fn lemma_connect_layout(c: ConnectView, name: Seq<char>)
    requires
        c.protocol_level == 3 || c.protocol_level == 4,
        name == (if c.protocol_level == 3 {
            "MQIsdp"@
        } else {
            "MQTT"@
        }),
    ensures
        connect_body(c) == text_field(name) + (seq![c.protocol_level] + (seq![connect_flags(c)] + (
        be16(c.keep_alive) + (text_field(c.client_id) + connect_options(c))))),
{
    let flags = connect_flags(c);
    let a = text_field(name);
    let k = be16(c.keep_alive);
    let id = text_field(c.client_id);
    let fixed = a.push(c.protocol_level).push(flags) + k + id;
    assert(connect_body(c) =~= fixed + connect_options(c));
    assert(fixed + connect_options(c) =~= a + (seq![c.protocol_level] + (seq![flags] + (k + (id
        + connect_options(c))))));
}

proof fn lemma_publish_roundtrip(p: PublishView)
    requires
        encodable(PacketView::Publish(p)),
    ensures
        publish_of(publish_flags(p), publish_body(p)) == Ok::<PublishView, Fault>(p),
{
    lemma_publish_flags(p.dup, p.qos, p.retain);
    let d1 = match p.packet_id {
        Some(id) => be16(id) + p.payload,
        None => p.payload,
    };
    assert(publish_body(p) =~= text_field(p.topic) + d1);
    lemma_take_text(p.topic, d1);
    if let Some(id) = p.packet_id {
        lemma_take_u16(id, p.payload);
    }
}

/// Decoding the body of a packet gives the packet back.
proof fn lemma_body_roundtrip(packet: PacketView)
    requires
        encodable(packet),
    ensures
        ({
            let (packet_type, flags, body) = parts(packet);
            &&& payload_of(packet_type, flags, body) == Ok::<PacketView, Fault>(packet)
            &&& 0 < packet_type < 16
            &&& flags & 0x0f == flags
        }),
{
    let (packet_type, flags, body) = parts(packet);
    assert(0u8 & 0x0f == 0u8) by (bit_vector);
    assert(2u8 & 0x0f == 2u8) by (bit_vector);
    match packet {
        PacketView::Connect(c) => lemma_connect_roundtrip(c),
        PacketView::ConnAck { session_present, code } => {
            assert(0u8 & 0x01 == 0) by (bit_vector);
            assert(1u8 & 0x01 == 1) by (bit_vector);
        },
        PacketView::Publish(p) => {
            lemma_publish_flags(p.dup, p.qos, p.retain);
            lemma_publish_roundtrip(p);
        },
        PacketView::Subscribe { packet_id, filters } => {
            lemma_take_u16(packet_id, subscribe_fields(filters));
            assert(body.skip(2) =~= subscribe_fields(filters) + Seq::<u8>::empty());
            lemma_take_filters(filters, Seq::empty(), Seq::empty());
            assert(Seq::<FilterView>::empty() + filters =~= filters);
        },
        PacketView::SubAck { packet_id, codes } => {
            lemma_take_u16(packet_id, codes);
        },
        PacketView::Unsubscribe { packet_id, filters } => {
            lemma_take_u16(packet_id, unsubscribe_fields(filters));
            assert(body.skip(2) =~= unsubscribe_fields(filters) + Seq::<u8>::empty());
            lemma_take_names(filters, Seq::empty(), Seq::empty());
            assert(Seq::<Seq<char>>::empty() + filters =~= filters);
        },
        PacketView::PubAck(id) => lemma_take_u16(id, Seq::empty()),
        PacketView::PubRec(id) => lemma_take_u16(id, Seq::empty()),
        PacketView::PubRel(id) => lemma_take_u16(id, Seq::empty()),
        PacketView::PubComp(id) => lemma_take_u16(id, Seq::empty()),
        PacketView::UnsubAck(id) => lemma_take_u16(id, Seq::empty()),
        _ => {},
    }
}

proof fn lemma_length_size(n: nat)
    requires
        n < 2097152,
    ensures
        1 <= length_bytes(n).len() <= 3,
{
    reveal_with_fuel(length_bytes, 4);
}

proof fn lemma_length_at(d: Seq<u8>, index: int, n: nat)
    requires
        0 <= index,
        index + length_bytes(n).len() <= 4,
        index + length_bytes(n).len() <= d.len(),
        d.subrange(index, index + length_bytes(n).len()) == length_bytes(n),
    ensures
        length_at(d, index) == Ok::<Option<(int, int)>, Fault>(
            Some((n as int, length_bytes(n).len() as int)),
        ),
    decreases n,
{
    let own = length_bytes(n);
    assert(own.len() > 0);
    assert(d[index] == d.subrange(index, index + own.len())[0]);
    if n >= 128 {
        let tail = length_bytes(n / 128);
        assert(own =~= seq![(n % 128 + 128) as u8] + tail);
        assert(d.subrange(index + 1, index + 1 + tail.len()) =~= tail) by {
            assert forall|i: int| 0 <= i < tail.len() implies d[index + 1 + i] == tail[i] by {
                assert(d.subrange(index, index + own.len())[i + 1] == own[i + 1]);
            }
        }
        lemma_length_at(d, index + 1, n / 128);
    }
}

proof fn lemma_length_cut(d: Seq<u8>, index: int, n: nat)
    requires
        0 <= index <= d.len(),
        index + length_bytes(n).len() <= 4,
        d.len() < index + length_bytes(n).len(),
        d.skip(index) == length_bytes(n).take(d.len() - index),
    ensures
        length_at(d, index) == Ok::<Option<(int, int)>, Fault>(None),
    decreases n,
{
    let own = length_bytes(n);
    if index < d.len() {
        assert(d[index] == d.skip(index)[0]);
        assert(n >= 128) by {
            if n < 128 {
                assert(own.len() == 1);
            }
        }
        let tail = length_bytes(n / 128);
        assert(own =~= seq![(n % 128 + 128) as u8] + tail);
        assert(d.skip(index + 1) =~= tail.take(d.len() - index - 1)) by {
            assert forall|i: int| 0 <= i < d.len() - index - 1 implies d[index + 1 + i]
                == tail[i] by {
                assert(d.skip(index)[i + 1] == own.take(d.len() - index)[i + 1]);
            }
        }
        lemma_length_cut(d, index + 1, n / 128);
    }
}

/// Decoding the encoding of a packet gives the packet back and leaves what
/// follows it in the buffer.
pub proof fn law_decode_of_encode(packet: PacketView, rest: Seq<u8>)
    requires
        encodable(packet),
    ensures
        decoded(encoding(packet) + rest) == (
            Ok::<Option<PacketView>, Fault>(Some(packet)),
            rest,
        ),
{
    let (packet_type, flags, body) = parts(packet);
    let buf = encoding(packet) + rest;
    let len = length_bytes(body.len());
    let d = buf.skip(1);
    lemma_body_roundtrip(packet);
    lemma_length_size(body.len());
    assert(d.subrange(0, len.len() as int) =~= len);
    lemma_length_at(d, 0, body.len());
    let total = 1 + len.len() + body.len();
    assert(buf.subrange(1 + len.len() as int, total as int) =~= body);
    assert(buf.skip(total as int) =~= rest);
    let first = buf[0];
    assert(first == (packet_type << 4) | (flags & 0x0f));
    assert(first >> 4 == packet_type && first & 0x0f == flags) by (bit_vector)
        requires
            packet_type < 16,
            flags & 0x0f == flags,
            first == (packet_type << 4) | (flags & 0x0f),
    ;
}

/// While bytes of a packet are missing, decoding asks for more and leaves the
/// buffer as it is.
pub proof fn law_decode_waits_for_whole_packet(packet: PacketView, n: int)
    requires
        encodable(packet),
        0 <= n < encoding(packet).len(),
    ensures
        decoded(encoding(packet).take(n)) == (
            Ok::<Option<PacketView>, Fault>(None),
            encoding(packet).take(n),
        ),
{
    let (packet_type, flags, body) = parts(packet);
    let buf = encoding(packet).take(n);
    let len = length_bytes(body.len());
    lemma_length_size(body.len());
    if n > 0 {
        let d = buf.skip(1);
        if n >= 1 + len.len() {
            assert(d.subrange(0, len.len() as int) =~= len);
            lemma_length_at(d, 0, body.len());
        } else {
            assert(d.skip(0) =~= len.take(d.len() as int));
            lemma_length_cut(d, 0, body.len());
        }
    }
}

/// Decoding only removes bytes from the front of the buffer.
pub proof fn law_decode_leaves_a_suffix(buf: Seq<u8>)
    ensures
        decoded(buf).1.is_suffix_of(buf),
        decoded(buf).0 matches Ok(Some(_)) ==> decoded(buf).1.len() + 2 <= buf.len(),
        decoded(buf).0 matches Ok(None) ==> decoded(buf).1 == buf,
{
    if buf.len() > 0 {
        lemma_length_positive(buf.skip(1), 0);
    }
}

proof fn lemma_length_positive(d: Seq<u8>, index: int)
    ensures
        length_at(d, index) matches Ok(Some((value, count))) ==> value >= 0 && count >= 1,
    decreases d.len() - index,
{
    if 0 <= index < d.len() && index < 4 && d[index] >= 128 {
        lemma_length_positive(d, index + 1);
    }
}

/// A whole packet at the front of the buffer is taken out, and what it holds is
/// what its body says under its type and its flags.
pub proof fn law_a_frame_holds_its_body(
    packet_type: u8,
    flags: u8,
    body: Seq<u8>,
    rest: Seq<u8>,
)
    requires
        packet_type < 16,
        flags < 16,
        body.len() <= 1048576,
    ensures
        decoded(frame(packet_type, flags, body) + rest).1 == rest,
        decoded(frame(packet_type, flags, body) + rest).0 == (match payload_of(
            packet_type,
            flags,
            body,
        ) {
            Ok(packet) => Ok(Some(packet)),
            Err(fault) => Err(fault),
        }),
        frame(packet_type, flags, body)[0] == packet_type * 16 + flags,
{
    let buf = frame(packet_type, flags, body) + rest;
    let len = length_bytes(body.len());
    let d = buf.skip(1);
    lemma_length_size(body.len());
    assert(d.subrange(0, len.len() as int) =~= len);
    lemma_length_at(d, 0, body.len());
    let total = 1 + len.len() + body.len();
    assert(buf.subrange(1 + len.len() as int, total as int) =~= body);
    assert(buf.skip(total as int) =~= rest);
    let first = buf[0];
    assert(first == (packet_type << 4) | (flags & 0x0f));
    assert(first >> 4 == packet_type && first & 0x0f == flags && first == packet_type * 16
        + flags) by (bit_vector)
        requires
            packet_type < 16,
            flags < 16,
            first == (packet_type << 4) | (flags & 0x0f),
    ;
}

/// The body of a CONNECT packet: the protocol, its level, the flags, the
/// keep-alive, the client's name, and what the flags announce.
pub open spec fn connect_layout(
    name: Seq<char>,
    level: u8,
    flags: u8,
    keep_alive: u16,
    client_id: Seq<char>,
    announced: Seq<u8>,
) -> Seq<u8> {
    text_field(name) + (seq![level] + (seq![flags] + (be16(keep_alive) + (text_field(client_id)
        + announced))))
}

/// The will of a client is read and dropped: a CONNECT packet with the will flag,
/// and with a will topic and a will message behind the client's name, says what
/// the same packet says without all of them, whatever else it holds.
pub proof fn law_a_will_is_read_and_dropped(
    name: Seq<char>,
    level: u8,
    flags: u8,
    keep_alive: u16,
    client_id: Seq<char>,
    will_topic: Seq<char>,
    will_message: Seq<u8>,
    announced: Seq<u8>,
)
    requires
        fits(name),
        fits(client_id),
        fits(will_topic),
        will_message.len() <= 65535,
        flags & 0x04 == 0,
    ensures
        connect_of(
            connect_layout(
                name,
                level,
                flags | 0x04,
                keep_alive,
                client_id,
                text_field(will_topic) + (field(will_message) + announced),
            ),
        ) == connect_of(connect_layout(name, level, flags, keep_alive, client_id, announced)),
{
    let more = flags | 0x04;
    assert(more & 0x04 != 0 && more & 0x01 == flags & 0x01 && more & 0x02 == flags & 0x02 && more
        & 0x80 == flags & 0x80 && more & 0x40 == flags & 0x40) by (bit_vector)
        requires
            more == flags | 0x04,
    ;
    let will = text_field(will_topic) + (field(will_message) + announced);
    lemma_take_text(client_id, will);
    lemma_take_text(client_id, announced);
    lemma_take_text(will_topic, field(will_message) + announced);
    lemma_take_field(will_message, announced);
    lemma_layout_read(name, level, more, keep_alive, client_id, will);
    lemma_layout_read(name, level, flags, keep_alive, client_id, announced);
}

/// How the front of a CONNECT packet is read.
proof fn lemma_layout_read(
    name: Seq<char>,
    level: u8,
    flags: u8,
    keep_alive: u16,
    client_id: Seq<char>,
    announced: Seq<u8>,
)
    requires
        fits(name),
    ensures
        connect_of(connect_layout(name, level, flags, keep_alive, client_id, announced)) == (
        if !known_protocol(name, level) {
            malformed("unsupported protocol"@)
        } else if flags & 0x01 != 0 {
            malformed("CONNECT reserved flag"@)
        } else {
            connect_tail(level, flags, keep_alive, text_field(client_id) + announced)
        }),
{
    let d4 = text_field(client_id) + announced;
    let d3 = be16(keep_alive) + d4;
    let d2 = seq![flags] + d3;
    let d1 = seq![level] + d2;
    lemma_take_text(name, d1);
    assert(take_u8(d1) == Ok::<(u8, Seq<u8>), Fault>((level, d2))) by {
        assert(d1.skip(1) =~= d2);
    }
    assert(take_u8(d2) == Ok::<(u8, Seq<u8>), Fault>((flags, d3))) by {
        assert(d2.skip(1) =~= d3);
    }
    lemma_take_u16(keep_alive, d4);
}

/// A CONNECT packet says who connects: behind the client's name come the will,
/// the user name and the password, each where its flag is set. The user name and
/// the password are what stands in their fields.
pub proof fn law_a_connect_names_the_client(
    old: bool,
    clean: bool,
    keep_alive: u16,
    client_id: Seq<char>,
    will: Option<(Seq<char>, Seq<u8>)>,
    username: Option<Seq<char>>,
    password: Option<Seq<u8>>,
    behind: Seq<u8>,
)
    requires
        fits(client_id),
        will matches Some(w) ==> fits(w.0) && w.1.len() <= 65535,
        username matches Some(u) ==> fits(u),
        password matches Some(p) ==> p.len() <= 65535,
    ensures
        ({
            let name = if old {
                "MQIsdp"@
            } else {
                "MQTT"@
            };
            let level = if old {
                3u8
            } else {
                4u8
            };
            let flags = bit(clean, 2) | bit(will is Some, 4) | bit(password is Some, 64) | bit(
                username is Some,
                128,
            );
            let secret = match password {
                Some(p) => field(p) + behind,
                None => behind,
            };
            let named = match username {
                Some(u) => text_field(u) + secret,
                None => secret,
            };
            let announced = match will {
                Some(w) => text_field(w.0) + (field(w.1) + named),
                None => named,
            };
            connect_of(connect_layout(name, level, flags, keep_alive, client_id, announced)) == Ok::<
                ConnectView,
                Fault,
            >(
                ConnectView {
                    protocol_level: level,
                    clean_session: clean,
                    keep_alive,
                    client_id,
                    username,
                    password,
                },
            )
        }),
{
    let name = if old {
        "MQIsdp"@
    } else {
        "MQTT"@
    };
    assert(fits(name)) by {
        reveal_strlit("MQIsdp");
        reveal_strlit("MQTT");
        assert(is_ascii_chars(name));
        is_ascii_chars_encode_utf8(name);
    }
    let level = if old {
        3u8
    } else {
        4u8
    };
    let a = bit(clean, 2);
    let b = bit(will is Some, 4);
    let c = bit(password is Some, 64);
    let d = bit(username is Some, 128);
    let flags = a | b | c | d;
    assert(flags & 0x01 == 0 && (flags & 0x02 != 0) == (a != 0) && (flags & 0x04 != 0) == (b != 0)
        && (flags & 0x40 != 0) == (c != 0) && (flags & 0x80 != 0) == (d != 0)) by (bit_vector)
        requires
            a == 0 || a == 2,
            b == 0 || b == 4,
            c == 0 || c == 64,
            d == 0 || d == 128,
            flags == a | b | c | d,
    ;
    let secret = match password {
        Some(p) => field(p) + behind,
        None => behind,
    };
    let named = match username {
        Some(u) => text_field(u) + secret,
        None => secret,
    };
    let announced = match will {
        Some(w) => text_field(w.0) + (field(w.1) + named),
        None => named,
    };
    lemma_layout_read(name, level, flags, keep_alive, client_id, announced);
    lemma_connect_tail_read(
        level,
        flags,
        keep_alive,
        client_id,
        will,
        username,
        password,
        behind,
    );
}

proof fn lemma_connect_tail_read(
    level: u8,
    flags: u8,
    keep_alive: u16,
    client_id: Seq<char>,
    will: Option<(Seq<char>, Seq<u8>)>,
    username: Option<Seq<char>>,
    password: Option<Seq<u8>>,
    behind: Seq<u8>,
)
    requires
        fits(client_id),
        will matches Some(w) ==> fits(w.0) && w.1.len() <= 65535,
        username matches Some(u) ==> fits(u),
        password matches Some(p) ==> p.len() <= 65535,
        (flags & 0x04 != 0) == (will is Some),
        (flags & 0x40 != 0) == (password is Some),
        (flags & 0x80 != 0) == (username is Some),
    ensures
        ({
            let secret = match password {
                Some(p) => field(p) + behind,
                None => behind,
            };
            let named = match username {
                Some(u) => text_field(u) + secret,
                None => secret,
            };
            let announced = match will {
                Some(w) => text_field(w.0) + (field(w.1) + named),
                None => named,
            };
            connect_tail(level, flags, keep_alive, text_field(client_id) + announced) == Ok::<
                ConnectView,
                Fault,
            >(
                ConnectView {
                    protocol_level: level,
                    clean_session: flags & 0x02 != 0,
                    keep_alive,
                    client_id,
                    username,
                    password,
                },
            )
        }),
{
    let secret = match password {
        Some(p) => field(p) + behind,
        None => behind,
    };
    let named = match username {
        Some(u) => text_field(u) + secret,
        None => secret,
    };
    let announced = match will {
        Some(w) => text_field(w.0) + (field(w.1) + named),
        None => named,
    };
    lemma_take_text(client_id, announced);
    assert(skip_will(announced, will is Some) == Ok::<Seq<u8>, Fault>(named)) by {
        if let Some(w) = will {
            lemma_take_text(w.0, field(w.1) + named);
            lemma_take_field(w.1, named);
        }
    }
    assert(take_opt_text(named, username is Some) == Ok::<(Option<Seq<char>>, Seq<u8>), Fault>(
        (username, secret),
    )) by {
        if let Some(u) = username {
            lemma_take_text(u, secret);
        }
    }
    assert(take_opt_field(secret, password is Some) == Ok::<(Option<Seq<u8>>, Seq<u8>), Fault>(
        (password, behind),
    )) by {
        if let Some(p) = password {
            lemma_take_field(p, behind);
        }
    }
}

/// A field is two bytes that tell its length, the higher one first, and then as
/// many bytes.
pub proof fn law_a_field_tells_its_length(bytes: Seq<u8>, d: Seq<u8>)
    requires
        bytes.len() <= 65535,
    ensures
        field(bytes).len() == 2 + bytes.len(),
        field(bytes)[0] * 256 + field(bytes)[1] == bytes.len(),
        field(bytes).skip(2) == bytes,
        take_field(d) is Ok <==> d.len() >= 2 && d.len() >= 2 + d[0] * 256 + d[1],
        take_field(d) matches Ok((got, rest)) ==> got.len() == d[0] * 256 + d[1] && d
            == d.take(2) + got + rest,
        take_text(d) is Ok ==> take_field(d) is Ok && valid_utf8(take_field(d)->Ok_0.0),
{
    assert(bytes.take(bytes.len() as int) =~= bytes);
    assert(field(bytes).skip(2) =~= bytes);
    if let Ok((got, rest)) = take_field(d) {
        assert(d =~= d.take(2) + got + rest);
    }
}

/// The bytes of a PUBACK packet.
pub proof fn law_the_bytes_of_a_puback(id: u16)
    ensures
        encoding(PacketView::PubAck(id)) == seq![
            0x40u8,
            2u8,
            (id / 256) as u8,
            (id % 256) as u8,
        ],
{
    lemma_id_bytes(4, 0, id);
}

/// The bytes of a PUBREC packet.
pub proof fn law_the_bytes_of_a_pubrec(id: u16)
    ensures
        encoding(PacketView::PubRec(id)) == seq![
            0x50u8,
            2u8,
            (id / 256) as u8,
            (id % 256) as u8,
        ],
{
    lemma_id_bytes(5, 0, id);
}

/// The bytes of a PUBREL packet.
pub proof fn law_the_bytes_of_a_pubrel(id: u16)
    ensures
        encoding(PacketView::PubRel(id)) == seq![
            0x62u8,
            2u8,
            (id / 256) as u8,
            (id % 256) as u8,
        ],
{
    lemma_id_bytes(6, 2, id);
}

/// The bytes of a PUBCOMP packet.
pub proof fn law_the_bytes_of_a_pubcomp(id: u16)
    ensures
        encoding(PacketView::PubComp(id)) == seq![
            0x70u8,
            2u8,
            (id / 256) as u8,
            (id % 256) as u8,
        ],
{
    lemma_id_bytes(7, 0, id);
}

/// The bytes of a UNSUBACK packet.
pub proof fn law_the_bytes_of_a_unsuback(id: u16)
    ensures
        encoding(PacketView::UnsubAck(id)) == seq![
            0xb0u8,
            2u8,
            (id / 256) as u8,
            (id % 256) as u8,
        ],
{
    lemma_id_bytes(11, 0, id);
}

/// The bytes of a PINGREQ packet.
pub proof fn law_the_bytes_of_a_pingreq()
    ensures
        encoding(PacketView::PingReq) == seq![0xc0u8, 0u8],
{
    lemma_empty_bytes(12);
}

/// The bytes of a PINGRESP packet.
pub proof fn law_the_bytes_of_a_pingresp()
    ensures
        encoding(PacketView::PingResp) == seq![0xd0u8, 0u8],
{
    lemma_empty_bytes(13);
}

/// The bytes of a DISCONNECT packet.
pub proof fn law_the_bytes_of_a_disconnect()
    ensures
        encoding(PacketView::Disconnect) == seq![0xe0u8, 0u8],
{
    lemma_empty_bytes(14);
}

/// The bytes of a CONNACK packet.
pub proof fn law_the_bytes_of_a_connack(session_present: bool, code: u8)
    ensures
        encoding(PacketView::ConnAck { session_present, code }) == seq![
            0x20u8,
            2u8,
            if session_present {
                1u8
            } else {
                0u8
            },
            code,
        ],
{
    let present = if session_present {
        1u8
    } else {
        0u8
    };
    lemma_pair_bytes(2, 0, present, code);
}

proof fn lemma_pair_bytes(packet_type: u8, flags: u8, a: u8, b: u8)
    requires
        packet_type < 16,
        flags < 16,
    ensures
        frame(packet_type, flags, seq![a, b]) == seq![
            (packet_type * 16 + flags) as u8,
            2u8,
            a,
            b,
        ],
{
    lemma_first_byte(packet_type, flags);
    assert(length_bytes(2) =~= seq![2u8]);
    assert(frame(packet_type, flags, seq![a, b]) =~= seq![
        (packet_type * 16 + flags) as u8,
        2u8,
        a,
        b,
    ]);
}

proof fn lemma_id_bytes(packet_type: u8, flags: u8, id: u16)
    requires
        packet_type < 16,
        flags < 16,
    ensures
        frame(packet_type, flags, be16(id)) == seq![
            (packet_type * 16 + flags) as u8,
            2u8,
            (id / 256) as u8,
            (id % 256) as u8,
        ],
{
    lemma_pair_bytes(packet_type, flags, (id / 256) as u8, (id % 256) as u8);
}

proof fn lemma_empty_bytes(packet_type: u8)
    requires
        packet_type < 16,
    ensures
        frame(packet_type, 0, Seq::empty()) == seq![(packet_type * 16) as u8, 0u8],
{
    lemma_first_byte(packet_type, 0);
    assert(length_bytes(0) =~= seq![0u8]);
    assert(frame(packet_type, 0, Seq::empty()) =~= seq![(packet_type * 16) as u8, 0u8]);
}

proof fn lemma_first_byte(packet_type: u8, flags: u8)
    requires
        packet_type < 16,
        flags < 16,
    ensures
        (packet_type << 4) | (flags & 0x0f) == packet_type * 16 + flags,
{
    assert((packet_type << 4) | (flags & 0x0f) == packet_type * 16 + flags) by (bit_vector)
        requires
            packet_type < 16,
            flags < 16,
    ;
}

/// The packets with a body begin with their type and their flags, and hold their
/// fields in the order of MQTT. A number goes before its parts, the higher byte
/// first; a text goes with its length before it.
pub proof fn law_packets_hold_their_fields_in_order(
    p: PublishView,
    packet_id: u16,
    filters: Seq<FilterView>,
    names: Seq<Seq<char>>,
    f: FilterView,
    name: Seq<char>,
    codes: Seq<u8>,
)
    requires
        p.qos <= 2,
        p.packet_id is Some <==> p.qos > 0,
        f.qos <= 2,
    ensures
        ({
            let flags = (if p.dup { 8int } else { 0int }) + p.qos * 2 + (if p.retain { 1int } else {
                0int
            });
            let number = match p.packet_id {
                Some(n) => seq![(n / 256) as u8, (n % 256) as u8],
                None => Seq::empty(),
            };
            let body = field(encode_utf8(p.topic)) + number + p.payload;
            encoding(PacketView::Publish(p)) == seq![(0x30 + flags) as u8] + length_bytes(
                body.len(),
            ) + body
        }),
        ({
            let body = seq![(packet_id / 256) as u8, (packet_id % 256) as u8] + subscribe_fields(
                filters,
            );
            encoding(PacketView::Subscribe { packet_id, filters }) == seq![0x82u8] + length_bytes(
                body.len(),
            ) + body
        }),
        subscribe_fields(Seq::empty()) == Seq::<u8>::empty(),
        subscribe_fields(filters.push(f)) == subscribe_fields(filters) + field(
            encode_utf8(f.topic),
        ).push(f.qos),
        ({
            let body = seq![(packet_id / 256) as u8, (packet_id % 256) as u8] + unsubscribe_fields(
                names,
            );
            encoding(PacketView::Unsubscribe { packet_id, filters: names }) == seq![0xa2u8]
                + length_bytes(body.len()) + body
        }),
        unsubscribe_fields(Seq::empty()) == Seq::<u8>::empty(),
        unsubscribe_fields(names.push(name)) == unsubscribe_fields(names) + field(
            encode_utf8(name),
        ),
        ({
            let body = seq![(packet_id / 256) as u8, (packet_id % 256) as u8] + codes;
            encoding(PacketView::SubAck { packet_id, codes }) == seq![0x90u8] + length_bytes(
                body.len(),
            ) + body
        }),
{
    lemma_first_byte(8, 2);
    lemma_first_byte(10, 2);
    lemma_first_byte(9, 0);
    let a = bit(p.dup, 0x08);
    let c = bit(p.retain, 0x01);
    let q = p.qos;
    let flags = a | (q << 1u8) | c;
    assert(flags == a + q * 2 + c && flags < 16) by (bit_vector)
        requires
            a == 0 || a == 8,
            q <= 2,
            c == 0 || c == 1,
            flags == a | (q << 1u8) | c,
    ;
    lemma_first_byte(3, flags);
    let number = match p.packet_id {
        Some(n) => seq![(n / 256) as u8, (n % 256) as u8],
        None => Seq::<u8>::empty(),
    };
    assert(publish_body(p) =~= field(encode_utf8(p.topic)) + number + p.payload);
    assert(filters.push(f).drop_last() =~= filters);
    assert(names.push(name).drop_last() =~= names);
}

/// A CONNECT packet holds the name and the level of its protocol, its flags, the
/// keep-alive, the client's name, and the user name and the password where there
/// are any.
pub proof fn law_a_connect_has_its_bytes(c: ConnectView)
    requires
        c.protocol_level == 4,
    ensures
        ({
            let flags = (if c.clean_session { 2int } else { 0int }) + (if c.username is Some {
                128int
            } else {
                0int
            }) + (if c.password is Some { 64int } else { 0int });
            let named = match c.username {
                Some(u) => field(encode_utf8(u)),
                None => Seq::empty(),
            };
            let secret = match c.password {
                Some(p) => field(p),
                None => Seq::empty(),
            };
            let body = seq![0u8, 4u8, 77u8, 81u8, 84u8, 84u8, 4u8, flags as u8] + seq![
                (c.keep_alive / 256) as u8,
                (c.keep_alive % 256) as u8,
            ] + field(encode_utf8(c.client_id)) + named + secret;
            encoding(PacketView::Connect(c)) == seq![0x10u8] + length_bytes(body.len()) + body
        }),
{
    lemma_first_byte(1, 0);
    reveal_strlit("MQTT");
    let name = "MQTT"@;
    assert(is_ascii_chars(name));
    is_ascii_chars_encode_utf8(name);
    let bytes = encode_utf8(name);
    assert(bytes =~= seq![77u8, 81u8, 84u8, 84u8]);
    assert(bytes.take(4) =~= bytes);
    assert(text_field(name) =~= seq![0u8, 4u8, 77u8, 81u8, 84u8, 84u8]);
    let x = bit(c.clean_session, 0x02);
    let y = bit(c.username is Some, 0x80);
    let z = bit(c.password is Some, 0x40);
    let flags = x | y | z;
    assert(flags == x + y + z) by (bit_vector)
        requires
            x == 0 || x == 2,
            y == 0 || y == 0x80,
            z == 0 || z == 0x40,
            flags == x | y | z,
    ;
    let named = match c.username {
        Some(u) => field(encode_utf8(u)),
        None => Seq::<u8>::empty(),
    };
    let secret = match c.password {
        Some(p) => field(p),
        None => Seq::<u8>::empty(),
    };
    let body = seq![0u8, 4u8, 77u8, 81u8, 84u8, 84u8, 4u8, flags] + seq![
        (c.keep_alive / 256) as u8,
        (c.keep_alive % 256) as u8,
    ] + field(encode_utf8(c.client_id)) + named + secret;
    assert(connect_body(c) =~= body);
}

/// The remaining length has seven bits in a byte, the lowest first, and the high
/// bit is set on every byte but the last.
pub proof fn law_the_remaining_length_has_seven_bits_in_a_byte(n: nat)
    ensures
        n < 128 ==> length_bytes(n) == seq![n as u8],
        128 <= n < 16384 ==> length_bytes(n) == seq![(n % 128 + 128) as u8, (n / 128) as u8],
        16384 <= n < 2097152 ==> length_bytes(n) == seq![
            (n % 128 + 128) as u8,
            (n / 128 % 128 + 128) as u8,
            (n / 16384) as u8,
        ],
{
    reveal_with_fuel(length_bytes, 4);
    if 128 <= n < 16384 {
        assert(length_bytes(n) =~= seq![(n % 128 + 128) as u8, (n / 128) as u8]);
    }
    if 16384 <= n < 2097152 {
        assert(n / 128 / 128 == n / 16384);
        assert(length_bytes(n) =~= seq![
            (n % 128 + 128) as u8,
            (n / 128 % 128 + 128) as u8,
            (n / 16384) as u8,
        ]);
    }
}

/// What no packet may be is refused: flags that its type does not have, a quality
/// of service above two, a body of the wrong length, a type that MQTT does not
/// know, a subscription without a filter.
pub proof fn law_malformed_packets_are_refused(packet_type: u8, flags: u8, d: Seq<u8>)
    requires
        packet_type < 16,
        flags < 16,
    ensures
        packet_type == 0 || packet_type == 15 ==> payload_of(packet_type, flags, d) is Err,
        packet_type == 1 && flags != 0 ==> payload_of(packet_type, flags, d) is Err,
        packet_type == 3 && (flags == 6 || flags == 7 || flags == 14 || flags == 15) ==> payload_of(
            packet_type,
            flags,
            d,
        ) is Err,
        (packet_type == 6 || packet_type == 8 || packet_type == 10) && flags != 2 ==> payload_of(
            packet_type,
            flags,
            d,
        ) is Err,
        (packet_type == 2 || packet_type == 4 || packet_type == 5 || packet_type == 6 || packet_type
            == 7 || packet_type == 11) && d.len() != 2 ==> payload_of(packet_type, flags, d) is Err,
        (packet_type == 8 || packet_type == 10) && d.len() <= 2 ==> payload_of(
            packet_type,
            flags,
            d,
        ) is Err,
        packet_type == 9 && d.len() < 2 ==> payload_of(packet_type, flags, d) is Err,
        (packet_type == 12 || packet_type == 13 || packet_type == 14) && d.len() > 0 ==> payload_of(
            packet_type,
            flags,
            d,
        ) is Err,
        (packet_type == 12 || packet_type == 13 || packet_type == 14) && d.len() == 0 ==> payload_of(
            packet_type,
            flags,
            d,
        ) is Ok,
        (packet_type == 4 || packet_type == 5 || packet_type == 7 || packet_type == 11) && d.len()
            == 2 ==> payload_of(packet_type, flags, d) is Ok,
{
    if packet_type == 3 {
        assert((flags == 6 || flags == 7 || flags == 14 || flags == 15) ==> (flags >> 1) & 0x03
            == 3) by (bit_vector);
    }
    if d.len() == 2 {
        assert(d.skip(2).len() == 0);
    }
}

/// The flags of a PUBLISH packet tell its quality of service, whether it is sent
/// again and whether it is to be kept; the rest follows from its fields.
pub proof fn law_a_publish_is_read_from_its_flags(
    flags: u8,
    topic: Seq<char>,
    number: u16,
    payload: Seq<u8>,
)
    requires
        flags < 16,
        fits(topic),
    ensures
        ({
            let qos = flags as int / 2 % 4;
            let d = if qos > 0 {
                text_field(topic) + (be16(number) + payload)
            } else {
                text_field(topic) + payload
            };
            qos <= 2 ==> publish_of(flags, d) == Ok::<PublishView, Fault>(
                PublishView {
                    dup: flags >= 8,
                    qos: qos as u8,
                    retain: flags as int % 2 == 1,
                    topic,
                    packet_id: if qos > 0 {
                        Some(number)
                    } else {
                        None
                    },
                    payload,
                },
            )
        }),
{
    assert((flags >> 1) & 0x03 == flags / 2 % 4 && (flags & 0x08 != 0) == (flags >= 8) && (flags
        & 0x01 != 0) == (flags % 2 == 1)) by (bit_vector)
        requires
            flags < 16,
    ;
    lemma_take_text(topic, be16(number) + payload);
    lemma_take_text(topic, payload);
    lemma_take_u16(number, payload);
}

/// A CONNECT packet is refused under a protocol that is not known, and with the
/// flag that is reserved.
pub proof fn law_unknown_protocols_are_refused(
    name: Seq<char>,
    level: u8,
    flags: u8,
    keep_alive: u16,
    client_id: Seq<char>,
    announced: Seq<u8>,
)
    requires
        fits(name),
    ensures
        !(name == "MQTT"@ && level == 4) && !(name == "MQIsdp"@ && level == 3) ==> connect_of(
            connect_layout(name, level, flags, keep_alive, client_id, announced),
        ) is Err,
        flags as int % 2 == 1 ==> connect_of(
            connect_layout(name, level, flags, keep_alive, client_id, announced),
        ) is Err,
{
    lemma_layout_read(name, level, flags, keep_alive, client_id, announced);
    assert((flags & 0x01 != 0) == (flags % 2 == 1)) by (bit_vector);
}

/// A filter is refused with a quality of service above two.
pub proof fn law_unknown_services_are_refused(
    number: u16,
    topic: Seq<char>,
    qos: u8,
    behind: Seq<u8>,
)
    requires
        fits(topic),
        qos > 2,
    ensures
        subscribe_of(be16(number) + (text_field(topic) + (seq![qos] + behind))) is Err,
{
    let d1 = seq![qos] + behind;
    let d = text_field(topic) + d1;
    lemma_take_text(topic, d1);
    assert(take_u8(d1) == Ok::<(u8, Seq<u8>), Fault>((qos, behind))) by {
        assert(d1.skip(1) =~= behind);
    }
    assert((be16(number) + d).skip(2) =~= d);
}

/// A length of more than four bytes is refused, and so is a packet of more than a
/// mebibyte; the buffer stays as it is.
pub proof fn law_long_packets_are_refused(buf: Seq<u8>, n: nat)
    ensures
        buf.len() >= 6 && buf[1] >= 128 && buf[2] >= 128 && buf[3] >= 128 && buf[4] >= 128
            ==> decoded(buf).0 is Err && decoded(buf).1 == buf,
        1048576 < n < 2097152 && buf.len() > length_bytes(n).len() && buf.subrange(
            1,
            1 + length_bytes(n).len() as int,
        ) == length_bytes(n) ==> decoded(buf) == (
            Err::<Option<PacketView>, Fault>(Fault::TooLarge),
            buf,
        ),
{
    if buf.len() >= 6 {
        let d = buf.skip(1);
        reveal_with_fuel(length_at, 6);
        assert(d[0] == buf[1] && d[1] == buf[2] && d[2] == buf[3] && d[3] == buf[4]);
    }
    if 1048576 < n < 2097152 && buf.len() > length_bytes(n).len() && buf.subrange(
        1,
        1 + length_bytes(n).len() as int,
    ) == length_bytes(n) {
        let d = buf.skip(1);
        lemma_length_size(n);
        assert(d.subrange(0, length_bytes(n).len() as int) =~= buf.subrange(
            1,
            1 + length_bytes(n).len() as int,
        ));
        lemma_length_at(d, 0, n);
    }
}

/// A quality of service above two is sent as two, and a message that needs a
/// number and has none goes under number one.
pub proof fn law_what_cannot_be_sent_is_sent_as_the_nearest(p: PublishView, f: FilterView)
    ensures
        p.qos > 2 ==> encoding(PacketView::Publish(p)) == encoding(
            PacketView::Publish(PublishView { qos: 2, ..p }),
        ),
        p.qos > 0 && p.packet_id is None ==> encoding(PacketView::Publish(p)) == encoding(
            PacketView::Publish(PublishView { packet_id: Some(1), ..p }),
        ),
        f.qos > 2 ==> subscribe_fields(seq![f]) == subscribe_fields(
            seq![FilterView { qos: 2, ..f }],
        ),
{
    let g = FilterView { qos: 2, ..f };
    assert(seq![f].drop_last() =~= seq![g].drop_last());
}

/// A field that is cut short is malformed, and so is a text that is no UTF-8; the
/// fault tells which.
pub proof fn law_a_fault_tells_what_is_wrong(d: Seq<u8>, bytes: Seq<u8>, rest: Seq<u8>)
    requires
        bytes.len() <= 65535,
    ensures
        d.len() < 2 ==> take_field(d) == Err::<(Seq<u8>, Seq<u8>), Fault>(
            Fault::Malformed("truncated u16"@),
        ),
        d.len() >= 2 && d.len() < 2 + d[0] * 256 + d[1] ==> take_field(d) == Err::<
            (Seq<u8>, Seq<u8>),
            Fault,
        >(Fault::Malformed("truncated bytes"@)),
        take_field(d) is Err ==> take_text(d) == Err::<(Seq<char>, Seq<u8>), Fault>(
            take_field(d)->Err_0,
        ),
        take_field(field(bytes) + rest) == Ok::<(Seq<u8>, Seq<u8>), Fault>((bytes, rest)),
        !valid_utf8(bytes) ==> take_text(field(bytes) + rest) == Err::<(Seq<char>, Seq<u8>), Fault>(
            Fault::Malformed("utf-8"@),
        ),
        valid_utf8(bytes) ==> take_text(field(bytes) + rest) == Ok::<(Seq<char>, Seq<u8>), Fault>(
            (decode_utf8(bytes), rest),
        ),
{
    lemma_take_field(bytes, rest);
}

} // verus!
