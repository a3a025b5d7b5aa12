//! Topics, messages and snapshots.
use vstd::prelude::*;
use vstd::string::*;
use vstd::utf8::*;

use crate::json::Attributes;
use crate::text;

verus! {

/// How a message is handed to the subscribers of its topic.
#[derive(Debug, Clone, Copy, PartialEq, Eq, Structural)]
pub enum DeliveryMode {
    Single,
    Broadcast,
}

/// Whether messages of a topic are stored until they are acknowledged.
#[derive(Debug, Clone, Copy, PartialEq, Eq, Structural)]
pub enum PersistenceMode {
    Persistent,
    Ephemeral,
}

/// The normal form in which mode names are compared.
pub open spec fn mode_word(value: Seq<char>) -> Seq<char> {
    text::lowered(text::trimmed(value))
}

impl DeliveryMode {
    pub open spec fn name(self) -> Seq<char> {
        match self {
            DeliveryMode::Single => "single"@,
            DeliveryMode::Broadcast => "broadcast"@,
        }
    }

    /// The mode that a word stands for.
    pub open spec fn of(value: Seq<char>) -> Option<DeliveryMode> {
        let word = mode_word(value);
        if word == "single"@ || word == "queue"@ || word == "competing"@ {
            Some(DeliveryMode::Single)
        } else if word == "broadcast"@ || word == "fanout"@ || word == "pubsub"@ {
            Some(DeliveryMode::Broadcast)
        } else {
            None
        }
    }

    /// The mode that a stored word stands for; broadcast for an unknown word.
    pub open spec fn stored(value: Seq<char>) -> DeliveryMode {
        match DeliveryMode::of(value) {
            Some(mode) => mode,
            None => DeliveryMode::Broadcast,
        }
    }

    pub fn as_str(self) -> (r: &'static str)
        ensures
            r@ == self.name(),
    {
        match self {
            DeliveryMode::Single => "single",
            DeliveryMode::Broadcast => "broadcast",
        }
    }

    pub fn parse(value: &str) -> (r: Option<DeliveryMode>)
        ensures
            r == DeliveryMode::of(value@),
    {
        let word: String = text::to_ascii_lower(text::trim(value));
        let word: &str = word.as_str();
        if text::text_eq(word, "single") || text::text_eq(word, "queue") || text::text_eq(
            word,
            "competing",
        ) {
            Some(DeliveryMode::Single)
        } else if text::text_eq(word, "broadcast") || text::text_eq(word, "fanout")
            || text::text_eq(word, "pubsub") {
            Some(DeliveryMode::Broadcast)
        } else {
            None
        }
    }

    pub fn from_stored(value: &str) -> (r: DeliveryMode)
        ensures
            r == DeliveryMode::stored(value@),
    {
        match DeliveryMode::parse(value) {
            Some(mode) => mode,
            None => DeliveryMode::Broadcast,
        }
    }
}

impl Default for DeliveryMode {
    fn default() -> (r: Self)
        ensures
            r == DeliveryMode::Broadcast,
    {
        DeliveryMode::Broadcast
    }
}

impl PersistenceMode {
    pub open spec fn name(self) -> Seq<char> {
        match self {
            PersistenceMode::Persistent => "persistent"@,
            PersistenceMode::Ephemeral => "ephemeral"@,
        }
    }

    /// The mode that a word stands for.
    pub open spec fn of(value: Seq<char>) -> Option<PersistenceMode> {
        let word = mode_word(value);
        if word == ""@ || word == "persistent"@ || word == "durable"@ || word == "store"@ {
            Some(PersistenceMode::Persistent)
        } else if word == "ephemeral"@ || word == "transient"@ || word == "none"@ || word
            == "drop"@ {
            Some(PersistenceMode::Ephemeral)
        } else {
            None
        }
    }

    /// The mode that a stored word stands for; ephemeral for a blank or unknown
    /// word.
    pub open spec fn stored(value: Seq<char>) -> PersistenceMode {
        if text::trimmed(value).len() == 0 {
            PersistenceMode::Ephemeral
        } else {
            match PersistenceMode::of(text::trimmed(value)) {
                Some(mode) => mode,
                None => PersistenceMode::Ephemeral,
            }
        }
    }

    pub fn as_str(self) -> (r: &'static str)
        ensures
            r@ == self.name(),
    {
        match self {
            PersistenceMode::Persistent => "persistent",
            PersistenceMode::Ephemeral => "ephemeral",
        }
    }

    pub fn parse(value: &str) -> (r: Option<PersistenceMode>)
        ensures
            r == PersistenceMode::of(value@),
    {
        let word: String = text::to_ascii_lower(text::trim(value));
        let word: &str = word.as_str();
        if text::text_eq(word, "") || text::text_eq(word, "persistent") || text::text_eq(
            word,
            "durable",
        ) || text::text_eq(word, "store") {
            Some(PersistenceMode::Persistent)
        } else if text::text_eq(word, "ephemeral") || text::text_eq(word, "transient")
            || text::text_eq(word, "none") || text::text_eq(word, "drop") {
            Some(PersistenceMode::Ephemeral)
        } else {
            None
        }
    }

    pub fn from_stored(value: &str) -> (r: PersistenceMode)
        ensures
            r == PersistenceMode::stored(value@),
    {
        let word: &str = text::trim(value);
        if word.unicode_len() == 0 {
            return PersistenceMode::Ephemeral;
        }
        match PersistenceMode::parse(word) {
            Some(mode) => mode,
            None => PersistenceMode::Ephemeral,
        }
    }
}

impl Default for PersistenceMode {
    fn default() -> (r: Self)
        ensures
            r == PersistenceMode::Ephemeral,
    {
        PersistenceMode::Ephemeral
    }
}

/// A name of a mode reads back as the mode.
pub proof fn law_stored_names_read_back(delivery: DeliveryMode, persistence: PersistenceMode)
    ensures
        DeliveryMode::stored(delivery.name()) == delivery,
        PersistenceMode::stored(persistence.name()) == persistence,
{
    reveal_strlit("single");
    reveal_strlit("broadcast");
    reveal_strlit("persistent");
    reveal_strlit("ephemeral");
    reveal_strlit("queue");
    reveal_strlit("competing");
    reveal_strlit("");
    reveal_strlit("durable");
    reveal_strlit("store");
    lemma_plain_word(delivery.name());
    lemma_plain_word(persistence.name());
    if delivery is Broadcast {
        assert("broadcast"@.len() == 9);
        assert("competing"@[0] == 'c' && "broadcast"@[0] == 'b');
    }
    if persistence is Ephemeral {
        assert("ephemeral"@.len() == 9);
    }
}

/// Lower-case words are their own normal form.
proof fn lemma_plain_word(w: Seq<char>)
    requires
        w.len() > 0,
        forall|i: int| 0 <= i < w.len() ==> 'a' <= #[trigger] w[i] <= 'z',
    ensures
        text::trimmed(w) == w,
        mode_word(w) == w,
{
    assert(!text::is_white_space(w.first()));
    assert(!text::is_white_space(w.last()));
    assert(text::lowered(w) =~= w);
}

/// How a topic is configured.
#[derive(Debug)]
pub struct TopicConfig {
    pub topic: String,
    pub delivery: DeliveryMode,
    pub persistence: PersistenceMode,
}

pub struct TopicConfigView {
    pub topic: Seq<char>,
    pub delivery: DeliveryMode,
    pub persistence: PersistenceMode,
}

impl View for TopicConfig {
    type V = TopicConfigView;

    open spec fn view(&self) -> TopicConfigView {
        TopicConfigView {
            topic: self.topic@,
            delivery: self.delivery,
            persistence: self.persistence,
        }
    }
}

impl Clone for TopicConfig {
    fn clone(&self) -> (r: Self)
        ensures
            r@ == self@,
    {
        TopicConfig {
            topic: self.topic.clone(),
            delivery: self.delivery,
            persistence: self.persistence,
        }
    }
}

/// The configuration of a topic that nobody configured.
pub open spec fn implicit_config(topic: Seq<char>) -> TopicConfigView {
    TopicConfigView {
        topic,
        delivery: DeliveryMode::Broadcast,
        persistence: PersistenceMode::Ephemeral,
    }
}

impl TopicConfig {
    /// The configuration of a topic that nobody configured.
    pub fn implicit(topic: &str) -> (r: TopicConfig)
        ensures
            r@ == implicit_config(topic@),
    {
        TopicConfig {
            topic: topic.to_string(),
            delivery: DeliveryMode::Broadcast,
            persistence: PersistenceMode::Ephemeral,
        }
    }
}

/// A message that a worker holds under a lease. The attributes are JSON text.
#[derive(Debug)]
pub struct ClaimedMessage {
    pub id: String,
    pub topic: String,
    pub payload: Vec<u8>,
    pub attributes: String,
    pub created_at: String,
    pub lease: String,
}

#[verifier::ext_equal]
pub struct ClaimedView {
    pub id: Seq<char>,
    pub topic: Seq<char>,
    pub payload: Seq<u8>,
    pub attributes: Seq<char>,
    pub created_at: Seq<char>,
    pub lease: Seq<char>,
}

impl View for ClaimedMessage {
    type V = ClaimedView;

    open spec fn view(&self) -> ClaimedView {
        ClaimedView {
            id: self.id@,
            topic: self.topic@,
            payload: self.payload@,
            attributes: self.attributes@,
            created_at: self.created_at@,
            lease: self.lease@,
        }
    }
}

/// A message as it is posted downstream. The attributes are JSON text.
#[derive(Debug)]
pub struct DownstreamMessage {
    pub id: String,
    pub topic: String,
    /// UTF-8 payloads are sent as text; arbitrary bytes are base64 encoded.
    pub payload: String,
    pub payload_encoding: &'static str,
    pub attributes: String,
    pub created_at: String,
}

/// A payload as text, and the name of the encoding.
pub open spec fn payload_text(payload: Seq<u8>) -> (Seq<char>, Seq<char>) {
    if valid_utf8(payload) {
        (decode_utf8(payload), "utf-8"@)
    } else {
        (base64_of(payload), "base64"@)
    }
}

/// A payload as text, and the name of the encoding.
pub fn text_payload(payload: &Vec<u8>) -> (r: (String, &'static str))
    ensures
        (r.0@, r.1@) == payload_text(payload@),
{
    let copy: Vec<u8> = payload.clone();
    proof {
        assert(copy@ =~= payload@);
    }
    match text::text_from_utf8(copy) {
        Some(plain) => (plain, "utf-8"),
        None => (base64_encode(payload.as_slice()), "base64"),
    }
}

impl ClaimedMessage {
    pub fn to_downstream(&self) -> (r: DownstreamMessage)
        ensures
            r.id@ == self.id@,
            r.topic@ == self.topic@,
            (r.payload@, r.payload_encoding@) == payload_text(self.payload@),
            r.attributes@ == self.attributes@,
            r.created_at@ == self.created_at@,
    {
        let (payload, payload_encoding): (String, &'static str) = text_payload(&self.payload);
        DownstreamMessage {
            id: self.id.clone(),
            topic: self.topic.clone(),
            payload,
            payload_encoding,
            attributes: self.attributes.clone(),
            created_at: self.created_at.clone(),
        }
    }
}

/// The base64 character of a number below 64.
pub open spec fn base64_char(n: int) -> char {
    if n < 26 {
        (n + 'A' as int) as char
    } else if n < 52 {
        (n - 26 + 'a' as int) as char
    } else if n < 62 {
        (n - 52 + '0' as int) as char
    } else if n == 62 {
        '+'
    } else {
        '/'
    }
}

/// Base64 with padding: three bytes become four characters.
pub open spec fn base64_of(bytes: Seq<u8>) -> Seq<char>
    decreases bytes.len(),
{
    let n = bytes.len();
    if n == 0 {
        Seq::empty()
    } else {
        let a = bytes[0] as int;
        let b = if n > 1 {
            bytes[1] as int
        } else {
            0
        };
        let c = if n > 2 {
            bytes[2] as int
        } else {
            0
        };
        let head = seq![
            base64_char(a / 4),
            base64_char(a % 4 * 16 + b / 16),
            if n > 1 {
                base64_char(b % 16 * 4 + c / 64)
            } else {
                '='
            },
            if n > 2 {
                base64_char(c % 64)
            } else {
                '='
            },
        ];
        head + base64_of(
            bytes.skip(
                if n < 3 {
                    n as int
                } else {
                    3
                },
            ),
        )
    }
}

fn base64_digit(n: u8) -> (r: char)
    requires
        n < 64,
    ensures
        r == base64_char(n as int),
{
    if n < 26 {
        (n + 65) as char
    } else if n < 52 {
        (n - 26 + 97) as char
    } else if n < 62 {
        (n - 52 + 48) as char
    } else if n == 62 {
        '+'
    } else {
        '/'
    }
}

/// Base64 with padding.
pub fn base64_encode(bytes: &[u8]) -> (r: String)
    ensures
        r@ == base64_of(bytes@),
{
    let mut out: String = String::new();
    let mut i: usize = 0;
    proof {
        assert(bytes@.skip(0) =~= bytes@);
        assert(out@ + base64_of(bytes@) =~= base64_of(bytes@));
    }
    while i < bytes.len()
        invariant
            i <= bytes@.len(),
            out@ + base64_of(bytes@.skip(i as int)) == base64_of(bytes@),
        decreases bytes.len() - i,
    {
        let ghost before = out@;
        let ghost chunk = bytes@.skip(i as int);
        let n: usize = bytes.len() - i;
        let a: u8 = bytes[i];
        let b: u8 = if n > 1 {
            bytes[i + 1]
        } else {
            0
        };
        let c: u8 = if n > 2 {
            bytes[i + 2]
        } else {
            0
        };
        out.push(base64_digit(a / 4));
        out.push(base64_digit(a % 4 * 16 + b / 16));
        if n > 1 {
            out.push(base64_digit(b % 16 * 4 + c / 64));
        } else {
            out.push('=');
        }
        if n > 2 {
            out.push(base64_digit(c % 64));
        } else {
            out.push('=');
        }
        let step: usize = if n < 3 {
            n
        } else {
            3
        };
        proof {
            let rest = chunk.skip(step as int);
            assert(rest =~= bytes@.skip(i + step));
            let head = out@.skip(before.len() as int);
            assert(head.len() == 4);
            assert(out@ =~= before + head);
            assert(base64_of(chunk) =~= head + base64_of(rest));
            assert(out@ + base64_of(rest) =~= before + base64_of(chunk));
        }
        i = i + step;
    }
    proof {
        assert(bytes@.skip(i as int) =~= Seq::<u8>::empty());
        assert(out@ + Seq::<char>::empty() =~= out@);
    }
    out
}

/// Base64 text has four characters for every three bytes begun.
pub proof fn law_base64_length(bytes: Seq<u8>)
    ensures
        base64_of(bytes).len() == (bytes.len() + 2) / 3 * 4,
    decreases bytes.len(),
{
    if bytes.len() > 0 {
        law_base64_length(
            bytes.skip(
                if bytes.len() < 3 {
                    bytes.len() as int
                } else {
                    3
                },
            ),
        );
    }
}

/// The number that a base64 character stands for.
pub open spec fn base64_value(c: char) -> int {
    if 'A' <= c <= 'Z' {
        c as int - 'A' as int
    } else if 'a' <= c <= 'z' {
        c as int - 'a' as int + 26
    } else if '0' <= c <= '9' {
        c as int - '0' as int + 52
    } else if c == '+' {
        62
    } else {
        63
    }
}

/// The bytes that base64 text with padding stands for.
pub open spec fn base64_decoded(text: Seq<char>) -> Seq<u8>
    decreases text.len(),
{
    if text.len() < 4 {
        Seq::empty()
    } else {
        let p = base64_value(text[0]);
        let q = base64_value(text[1]);
        let r = base64_value(text[2]);
        let s = base64_value(text[3]);
        let first = seq![(p * 4 + q / 16) as u8];
        let second = if text[2] == '=' {
            Seq::empty()
        } else {
            seq![(q % 16 * 16 + r / 4) as u8]
        };
        let third = if text[3] == '=' {
            Seq::empty()
        } else {
            seq![(r % 4 * 64 + s) as u8]
        };
        first + second + third + base64_decoded(text.skip(4))
    }
}

/// The number of padding signs at the end of a text.
pub open spec fn base64_padding(text: Seq<char>) -> int
    decreases text.len(),
{
    if text.len() > 0 && text.last() == '=' {
        1 + base64_padding(text.drop_last())
    } else {
        0
    }
}

proof fn lemma_base64_char(n: int)
    requires
        0 <= n < 64,
    ensures
        base64_value(base64_char(n)) == n,
        base64_char(n) != '=',
{
}

/// Decoding base64 text gives back the bytes that it was made of.
pub proof fn law_base64_decodes(bytes: Seq<u8>)
    ensures
        base64_decoded(base64_of(bytes)) == bytes,
    decreases bytes.len(),
{
    let n = bytes.len();
    if n > 0 {
        let a = bytes[0] as int;
        let b = if n > 1 {
            bytes[1] as int
        } else {
            0
        };
        let c = if n > 2 {
            bytes[2] as int
        } else {
            0
        };
        let step = if n < 3 {
            n as int
        } else {
            3
        };
        let text = base64_of(bytes);
        let rest = bytes.skip(step);
        law_base64_decodes(rest);
        lemma_base64_char(a / 4);
        lemma_base64_char(a % 4 * 16 + b / 16);
        lemma_base64_char(b % 16 * 4 + c / 64);
        lemma_base64_char(c % 64);
        assert(text.skip(4) =~= base64_of(rest));
        assert(a / 4 * 4 + (a % 4 * 16 + b / 16) / 16 == a);
        assert((a % 4 * 16 + b / 16) % 16 * 16 + (b % 16 * 4 + c / 64) / 4 == b);
        assert((b % 16 * 4 + c / 64) % 4 * 64 + c % 64 == c);
        assert(base64_decoded(text) =~= bytes);
    }
}

/// Base64 text ends in as many padding signs as bytes are missing to a multiple of
/// three.
pub proof fn law_base64_padding(bytes: Seq<u8>)
    ensures
        base64_padding(base64_of(bytes)) == (3 - bytes.len() % 3) % 3,
    decreases bytes.len(),
{
    let n = bytes.len();
    let text = base64_of(bytes);
    if 0 < n <= 3 {
        let a = bytes[0] as int;
        let b = if n > 1 {
            bytes[1] as int
        } else {
            0
        };
        lemma_base64_char(a % 4 * 16 + b / 16);
        if n > 1 {
            let c = if n > 2 {
                bytes[2] as int
            } else {
                0
            };
            lemma_base64_char(b % 16 * 4 + c / 64);
            lemma_base64_char(c % 64);
        }
        assert(bytes.skip(n as int) =~= Seq::<u8>::empty());
        assert(base64_of(bytes.skip(n as int)) =~= Seq::<char>::empty());
        assert(text.len() == 4);
        reveal_with_fuel(base64_padding, 4);
    } else if n > 3 {
        let rest = bytes.skip(3);
        law_base64_padding(rest);
        law_base64_length(rest);
        lemma_padding_of_end(text.take(4), base64_of(rest));
        assert(text =~= text.take(4) + base64_of(rest));
    }
}

/// A beginning that does not end in a padding sign has no part in the padding.
proof fn lemma_padding_of_end(head: Seq<char>, end: Seq<char>)
    requires
        base64_padding(end) < end.len(),
    ensures
        base64_padding(head + end) == base64_padding(end),
    decreases end.len(),
{
    if end.last() == '=' {
        assert((head + end).drop_last() =~= head + end.drop_last());
        lemma_padding_of_end(head, end.drop_last());
    }
}

/// A consumer in a snapshot.
#[derive(Clone)]
pub struct ConsumerSnapshot {
    pub id: String,
    pub name: String,
    pub last_seen_at: String,
    pub live: bool,
    pub attributes: Attributes,
}

#[verifier::ext_equal]
pub struct ConsumerSnapshotView {
    pub id: Seq<char>,
    pub name: Seq<char>,
    pub last_seen_at: Seq<char>,
    pub live: bool,
    pub attributes: Map<Seq<char>, Seq<char>>,
}

impl View for ConsumerSnapshot {
    type V = ConsumerSnapshotView;

    open spec fn view(&self) -> ConsumerSnapshotView {
        ConsumerSnapshotView {
            id: self.id@,
            name: self.name@,
            last_seen_at: self.last_seen_at@,
            live: self.live,
            attributes: self.attributes@,
        }
    }
}

/// The counters, settings and consumers of a topic.
#[derive(Clone)]
pub struct TopicSnapshot {
    pub name: String,
    pub accepted: i64,
    pub duplicates: i64,
    pub pending: i64,
    pub processing: i64,
    pub delivered: i64,
    pub failed: i64,
    pub streams: usize,
    pub delivery: String,
    pub persistence: String,
    pub dropped: i64,
    pub consumers: Vec<ConsumerSnapshot>,
}

#[verifier::ext_equal]
pub struct TopicSnapshotView {
    pub name: Seq<char>,
    pub accepted: i64,
    pub duplicates: i64,
    pub pending: i64,
    pub processing: i64,
    pub delivered: i64,
    pub failed: i64,
    pub streams: usize,
    pub delivery: Seq<char>,
    pub persistence: Seq<char>,
    pub dropped: i64,
    pub consumers: Seq<ConsumerSnapshotView>,
}

impl View for TopicSnapshot {
    type V = TopicSnapshotView;

    open spec fn view(&self) -> TopicSnapshotView {
        TopicSnapshotView {
            name: self.name@,
            accepted: self.accepted,
            duplicates: self.duplicates,
            pending: self.pending,
            processing: self.processing,
            delivered: self.delivered,
            failed: self.failed,
            streams: self.streams,
            delivery: self.delivery@,
            persistence: self.persistence@,
            dropped: self.dropped,
            consumers: self.consumers@.map_values(|c: ConsumerSnapshot| c@),
        }
    }
}

/// A topic of which nothing is known but its name.
pub open spec fn blank_snapshot(name: Seq<char>) -> TopicSnapshotView {
    TopicSnapshotView {
        name,
        accepted: 0,
        duplicates: 0,
        pending: 0,
        processing: 0,
        delivered: 0,
        failed: 0,
        streams: 0,
        delivery: Seq::empty(),
        persistence: Seq::empty(),
        dropped: 0,
        consumers: Seq::empty(),
    }
}

impl TopicSnapshot {
    /// A topic of which nothing is known but its name.
    pub fn blank(name: &str) -> (r: TopicSnapshot)
        ensures
            r@ == blank_snapshot(name@),
    {
        let r: TopicSnapshot = TopicSnapshot {
            name: name.to_string(),
            accepted: 0,
            duplicates: 0,
            pending: 0,
            processing: 0,
            delivered: 0,
            failed: 0,
            streams: 0,
            delivery: String::new(),
            persistence: String::new(),
            dropped: 0,
            consumers: Vec::new(),
        };
        proof {
            assert(r@ =~= blank_snapshot(name@));
        }
        r
    }
}

impl Default for TopicSnapshot {
    fn default() -> (r: Self)
        ensures
            r@ == blank_snapshot(Seq::empty()),
    {
        let name: String = String::new();
        TopicSnapshot::blank(name.as_str())
    }
}

/// Words for modes count without white space around them and in any case: those
/// for one receiver, those for all, those for messages that are kept and those for
/// messages that are not. Other words stand for nothing.
pub proof fn law_modes_are_read_from_their_words(value: Seq<char>, word: Seq<char>)
    requires
        text::lowered(text::trimmed(value)) == word,
    ensures
        word == "single"@ || word == "queue"@ || word == "competing"@ ==> DeliveryMode::of(value)
            == Some(DeliveryMode::Single),
        word == "broadcast"@ || word == "fanout"@ || word == "pubsub"@ ==> DeliveryMode::of(value)
            == Some(DeliveryMode::Broadcast),
        word == ""@ || word == "persistent"@ || word == "durable"@ || word == "store"@
            ==> PersistenceMode::of(value) == Some(PersistenceMode::Persistent),
        word == "ephemeral"@ || word == "transient"@ || word == "none"@ || word == "drop"@
            ==> PersistenceMode::of(value) == Some(PersistenceMode::Ephemeral),
        DeliveryMode::of(value) is Some ==> word == "single"@ || word == "queue"@ || word
            == "competing"@ || word == "broadcast"@ || word == "fanout"@ || word == "pubsub"@,
        PersistenceMode::of(value) is Some ==> word == ""@ || word == "persistent"@ || word
            == "durable"@ || word == "store"@ || word == "ephemeral"@ || word == "transient"@
            || word == "none"@ || word == "drop"@,
        DeliveryMode::of(value) is None ==> DeliveryMode::stored(value) == DeliveryMode::Broadcast,
{
    reveal_strlit("single");
    reveal_strlit("queue");
    reveal_strlit("competing");
    reveal_strlit("broadcast");
    reveal_strlit("fanout");
    reveal_strlit("pubsub");
    reveal_strlit("");
    reveal_strlit("persistent");
    reveal_strlit("durable");
    reveal_strlit("store");
    reveal_strlit("ephemeral");
    reveal_strlit("transient");
    reveal_strlit("none");
    reveal_strlit("drop");
    assert("single"@.len() == 6 && "single"@[0] == 's');
    assert("fanout"@.len() == 6 && "fanout"@[0] == 'f');
    assert("pubsub"@.len() == 6 && "pubsub"@[0] == 'p');
    assert("queue"@.len() == 5 && "competing"@.len() == 9 && "broadcast"@.len() == 9);
    assert("competing"@[0] == 'c' && "broadcast"@[0] == 'b');
    assert("persistent"@.len() == 10 && "durable"@.len() == 7 && "store"@.len() == 5);
    assert("ephemeral"@.len() == 9 && "transient"@.len() == 9 && "none"@.len() == 4 && "drop"@.len()
        == 4);
}

/// A topic that nobody configured is for all subscribers and keeps no message.
pub proof fn law_an_implicit_topic_is_broadcast_and_ephemeral(topic: Seq<char>)
    ensures
        implicit_config(topic).topic == topic,
        implicit_config(topic).delivery == DeliveryMode::Broadcast,
        implicit_config(topic).persistence == PersistenceMode::Ephemeral,
{
}

/// A payload goes out as text where it is UTF-8, and else in base64; either way
/// it can be had back.
pub proof fn law_a_payload_can_be_had_back(payload: Seq<u8>)
    ensures
        valid_utf8(payload) ==> payload_text(payload).1 == "utf-8"@ && encode_utf8(
            payload_text(payload).0,
        ) == payload,
        !valid_utf8(payload) ==> payload_text(payload).1 == "base64"@ && base64_decoded(
            payload_text(payload).0,
        ) == payload,
{
    if valid_utf8(payload) {
        decode_utf8_encode_utf8(payload);
    } else {
        law_base64_decodes(payload);
    }
}

/// Six bits are written as a capital letter, a small letter, a digit, a plus sign
/// or a slash, in this order.
pub proof fn law_base64_has_its_alphabet(bytes: Seq<u8>)
    requires
        bytes.len() > 0,
    ensures
        ({
            let n = bytes[0] as int / 4;
            let c = base64_of(bytes)[0];
            &&& n < 26 ==> c as int == 65 + n
            &&& 26 <= n < 52 ==> c as int == 97 + n - 26
            &&& 52 <= n < 62 ==> c as int == 48 + n - 52
            &&& n == 62 ==> c == '+'
            &&& n == 63 ==> c == '/'
        }),
{
}

} // verus!
