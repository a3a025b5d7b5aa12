//! What the status pages show.
use vstd::prelude::*;
use vstd::string::*;
use vstd::utf8::*;

use crate::auth;
use crate::catalog;
use crate::clients;
use crate::clients::ClientInfo;
use crate::grpc_conn::GrpcClientInfo;
use crate::json::Attributes;
use crate::model;
use crate::model::{ConsumerSnapshot, ConsumerSnapshotView, TopicSnapshot, TopicSnapshotView};
use crate::mqtt::MqttClientInfo;
use crate::order;
use crate::order::Order;
use crate::page;
use crate::paging::StoredMessage;
use crate::subscribers;
use crate::subscribers::{Live, SessionInfo, SessionView, TopicSubscribers};
use crate::table::TextMap;
use crate::text;
use crate::topic;

verus! {

// --------------------------------------------------------------------- access

/// Whether a path is that of the health check, which is open to all.
pub open spec fn health_path(path: Seq<char>, web_base: Option<Seq<char>>) -> bool {
    path == "/health"@ || (web_base matches Some(base) && path == base + "/health"@)
}

/// Whether a path is that of the health check, which is open to all.
pub fn is_open_health_path(path: &str, web_base: Option<&str>) -> (r: bool)
    ensures
        r == health_path(path@, text::opt_str(web_base)),
{
    if text::text_eq(path, "/health") {
        return true;
    }
    match web_base {
        Some(base) => {
            let health: String = text::joined(base, "/health");
            text::text_eq(path, health.as_str())
        },
        None => false,
    }
}

/// Whether an HTTP request may pass: the health check always, others with the
/// token, where one is expected.
pub open spec fn passes(
    path: Seq<char>,
    web_base: Option<Seq<char>>,
    expected: Option<Seq<char>>,
    authorization: Option<Seq<char>>,
    query: Option<Seq<char>>,
) -> bool {
    health_path(path, web_base) || auth::opens(expected, auth::request_token(authorization, query))
}

/// Whether an HTTP request may pass.
pub fn may_pass(
    path: &str,
    web_base: Option<&str>,
    expected: Option<&str>,
    authorization: Option<&str>,
    query: Option<&str>,
) -> (r: bool)
    ensures
        r == passes(
            path@,
            text::opt_str(web_base),
            text::opt_str(expected),
            text::opt_str(authorization),
            text::opt_str(query),
        ),
{
    if is_open_health_path(path, web_base) {
        return true;
    }
    match expected {
        None => true,
        Some(token) => {
            let presented: Option<String> = auth::http_token(authorization, query);
            match &presented {
                Some(value) => auth::tokens_match(token, Some(value.as_str())),
                None => false,
            }
        },
    }
}

// ------------------------------------------------------------------- the page

/// The page, with the base of its links where requests carry a prefix.
pub open spec fn page_for(web_base: Option<Seq<char>>) -> Seq<char> {
    match web_base {
        Some(base) => page::PAGE_START@ + ("\n  <base href=\""@ + text::trimmed_end_of(base, '/')
            + "/\">"@) + page::PAGE_REST@,
        None => page::PAGE_START@ + page::PAGE_REST@,
    }
}

/// The page, with the base of its links where requests carry a prefix.
pub fn dashboard_html(web_base: Option<&str>) -> (r: String)
    ensures
        r@ == page_for(text::opt_str(web_base)),
{
    let mut out: String = page::PAGE_START.to_string();
    match web_base {
        Some(base) => {
            let ghost start = out@;
            out.append("\n  <base href=\"");
            out.append(text::trim_end_char(base, '/'));
            out.append("/\">");
            proof {
                assert(out@ =~= start + ("\n  <base href=\""@ + text::trimmed_end_of(base@, '/')
                    + "/\">"@));
            }
        },
        None => {},
    }
    out.append(page::PAGE_REST);
    out
}

// ------------------------------------------------------------ message preview

/// How many bytes of a message are shown.
pub const MESSAGE_PREVIEW_BYTES: usize = 65536;

/// A stored message as it is shown. The attributes are JSON text.
pub struct MessageBody {
    pub id: String,
    pub topic: String,
    pub payload: String,
    pub payload_encoding: &'static str,
    pub truncated: bool,
    pub attributes: String,
    pub status: String,
    pub attempts: i64,
    pub created_at: String,
    pub delivered_at: Option<String>,
    pub last_error: Option<String>,
}

/// The last place, at `end` or before, where a character begins or the text ends.
pub open spec fn cut_at(bytes: Seq<u8>, end: int) -> int
    decreases end,
{
    if end <= 0 || is_char_boundary(bytes, end) {
        end
    } else {
        cut_at(bytes, end - 1)
    }
}

/// What is shown of a payload: text where it is text, else base64; and whether
/// something is left out.
pub open spec fn preview(payload: Seq<u8>) -> (Seq<char>, Seq<char>, bool) {
    let long = payload.len() > MESSAGE_PREVIEW_BYTES;
    if valid_utf8(payload) {
        (
            decode_utf8(
                if long {
                    payload.subrange(0, cut_at(payload, MESSAGE_PREVIEW_BYTES as int))
                } else {
                    payload
                },
            ),
            "utf-8"@,
            long,
        )
    } else {
        (
            model::base64_of(
                if long {
                    payload.take(MESSAGE_PREVIEW_BYTES as int)
                } else {
                    payload
                },
            ),
            "base64"@,
            long,
        )
    }
}

fn cut_text(whole: &str, limit: usize) -> (r: String)
    requires
        limit < whole.spec_bytes().len(),
    ensures
        r@ == decode_utf8(
            whole.spec_bytes().subrange(0, cut_at(whole.spec_bytes(), limit as int)),
        ),
{
    let ghost bytes = whole.spec_bytes();
    let mut end: usize = limit;
    proof {
        encode_utf8_valid_utf8(whole@);
    }
    while end > 0 && !whole.is_char_boundary(end)
        invariant
            end <= limit,
            bytes == whole.spec_bytes(),
            cut_at(bytes, limit as int) == cut_at(bytes, end as int),
        decreases end,
    {
        end = end - 1;
    }
    proof {
        assert(valid_utf8(bytes));
        assert(is_char_boundary(bytes, end as int));
        assert(cut_at(bytes, end as int) == end);
    }
    let (front, back): (&str, &str) = whole.split_at(end);
    proof {
        encode_utf8_decode_utf8(front@);
    }
    front.to_string()
}

fn take_bytes(bytes: &Vec<u8>, n: usize) -> (r: Vec<u8>)
    requires
        n <= bytes@.len(),
    ensures
        r@ == bytes@.take(n as int),
{
    let mut out: Vec<u8> = Vec::new();
    let mut i: usize = 0;
    while i < n
        invariant
            i <= n <= bytes@.len(),
            out@ == bytes@.take(i as int),
        decreases n - i,
    {
        out.push(bytes[i]);
        proof {
            assert(out@ =~= bytes@.take(i + 1));
        }
        i = i + 1;
    }
    out
}

fn show_payload(payload: Vec<u8>) -> (r: (String, &'static str, bool))
    ensures
        (r.0@, r.1@, r.2) == preview(payload@),
{
    let long: bool = payload.len() > MESSAGE_PREVIEW_BYTES;
    let copy: Vec<u8> = payload.clone();
    proof {
        assert(copy@ =~= payload@);
    }
    match text::text_from_utf8(copy) {
        Some(whole) => {
            proof {
                decode_utf8_encode_utf8(payload@);
            }
            if long {
                (cut_text(whole.as_str(), MESSAGE_PREVIEW_BYTES), "utf-8", true)
            } else {
                (whole, "utf-8", false)
            }
        },
        None => if long {
            let front: Vec<u8> = take_bytes(&payload, MESSAGE_PREVIEW_BYTES);
            (model::base64_encode(front.as_slice()), "base64", true)
        } else {
            (model::base64_encode(payload.as_slice()), "base64", false)
        },
    }
}

/// A stored message as it is shown.
pub fn to_message_body(message: StoredMessage) -> (r: MessageBody)
    ensures
        (r.payload@, r.payload_encoding@, r.truncated) == preview(message.payload@),
        r.id == message.id,
        r.topic == message.topic,
        r.attributes == message.attributes,
        r.status == message.status,
        r.attempts == message.attempts,
        r.created_at == message.created_at,
        r.delivered_at == message.delivered_at,
        r.last_error == message.last_error,
{
    let (payload, payload_encoding, truncated): (String, &'static str, bool) = show_payload(
        message.payload,
    );
    MessageBody {
        id: message.id,
        topic: message.topic,
        payload,
        payload_encoding,
        truncated,
        attributes: message.attributes,
        status: message.status,
        attempts: message.attempts,
        created_at: message.created_at,
        delivered_at: message.delivered_at,
        last_error: message.last_error,
    }
}

// ------------------------------------------------------------- live sessions

/// A topic that is known only by a subscription to it.
pub open spec fn session_topic(name: Seq<char>) -> TopicSnapshotView {
    TopicSnapshotView {
        delivery: "broadcast"@,
        persistence: "persistent"@,
        ..model::blank_snapshot(name)
    }
}

pub open spec fn has_topic(topics: Seq<TopicSnapshotView>, name: Seq<char>) -> bool {
    exists|i: int| 0 <= i < topics.len() && (#[trigger] topics[i]).name == name
}

/// The topics with those that are only subscribed to.
pub open spec fn with_session_topics(
    topics: Seq<TopicSnapshotView>,
    sessions: Seq<SessionView>,
) -> Seq<TopicSnapshotView>
    decreases sessions.len(),
{
    if sessions.len() == 0 {
        topics
    } else {
        let before = with_session_topics(topics, sessions.drop_last());
        if has_topic(before, sessions.last().topic) {
            before
        } else {
            before.push(session_topic(sessions.last().topic))
        }
    }
}

/// What a session is called: the client id of an MQTT session, else its id.
pub open spec fn session_name(id: Seq<char>) -> Seq<char> {
    match text::after_prefix(id, clients::MQTT_PREFIX@) {
        Some(rest) => rest,
        None => id,
    }
}

/// A consumer that is known only by its live session.
pub open spec fn session_consumer(session: SessionView) -> ConsumerSnapshotView {
    ConsumerSnapshotView {
        id: session.id,
        name: session_name(session.id),
        last_seen_at: session.connected_at,
        live: true,
        attributes: Map::empty().insert("protocol"@, session.protocol),
    }
}

/// The first of the consumers with an id.
pub open spec fn consumer_at(consumers: Seq<ConsumerSnapshotView>, id: Seq<char>) -> Option<int>
    decreases consumers.len(),
{
    if consumers.len() == 0 {
        None
    } else {
        match consumer_at(consumers.drop_last(), id) {
            Some(i) => Some(i),
            None => if consumers.last().id == id {
                Some(consumers.len() - 1)
            } else {
                None
            },
        }
    }
}

/// The consumers of a topic with one more live session.
pub open spec fn attended(
    consumers: Seq<ConsumerSnapshotView>,
    session: SessionView,
) -> Seq<ConsumerSnapshotView> {
    match consumer_at(consumers, session.id) {
        Some(i) => consumers.update(i, ConsumerSnapshotView { live: true, ..consumers[i] }),
        None => consumers.push(session_consumer(session)),
    }
}

/// The consumers of a topic with the live sessions that receive it.
pub open spec fn all_attended(
    name: Seq<char>,
    consumers: Seq<ConsumerSnapshotView>,
    sessions: Seq<SessionView>,
) -> Seq<ConsumerSnapshotView>
    decreases sessions.len(),
{
    if sessions.len() == 0 {
        consumers
    } else {
        let before = all_attended(name, consumers, sessions.drop_last());
        if topic::selects(sessions.last().topic, name) {
            attended(before, sessions.last())
        } else {
            before
        }
    }
}

/// The topics with the live sessions.
pub open spec fn merged(topics: Seq<TopicSnapshotView>, sessions: Seq<SessionView>) -> Seq<
    TopicSnapshotView,
> {
    with_session_topics(topics, sessions).map_values(
        |t: TopicSnapshotView|
            TopicSnapshotView { consumers: all_attended(t.name, t.consumers, sessions), ..t },
    )
}

fn topic_is_listed(topics: &Vec<TopicSnapshot>, name: &str) -> (r: bool)
    ensures
        r == has_topic(order::views(topics@), name@),
{
    let ghost all = order::views(topics@);
    let mut i: usize = 0;
    while i < topics.len()
        invariant
            i <= topics@.len(),
            all == order::views(topics@),
            forall|k: int| 0 <= k < i ==> (#[trigger] all[k]).name != name@,
        decreases topics.len() - i,
    {
        assert(all[i as int] == topics@[i as int]@);
        if text::text_eq(topics[i].name.as_str(), name) {
            return true;
        }
        i = i + 1;
    }
    false
}

fn add_session_topics(topics: &mut Vec<TopicSnapshot>, sessions: &[SessionInfo])
    ensures
        order::views(final(topics)@) == with_session_topics(
            order::views(old(topics)@),
            order::views(sessions@),
        ),
{
    let ghost first = order::views(topics@);
    let ghost all = order::views(sessions@);
    let mut i: usize = 0;
    proof {
        assert(all.take(0) =~= Seq::<SessionView>::empty());
    }
    while i < sessions.len()
        invariant
            i <= sessions@.len(),
            all == order::views(sessions@),
            order::views(topics@) == with_session_topics(first, all.take(i as int)),
        decreases sessions.len() - i,
    {
        let ghost so_far = order::views(topics@);
        proof {
            assert(all.take(i + 1).drop_last() =~= all.take(i as int));
            assert(all.take(i + 1).last() == sessions@[i as int]@);
        }
        if !topic_is_listed(topics, sessions[i].topic.as_str()) {
            let blank: TopicSnapshot = TopicSnapshot::blank(sessions[i].topic.as_str());
            let row: TopicSnapshot = TopicSnapshot {
                delivery: "broadcast".to_string(),
                persistence: "persistent".to_string(),
                ..blank
            };
            proof {
                assert(row@ =~= session_topic(sessions@[i as int]@.topic));
            }
            topics.push(row);
            proof {
                assert(order::views(topics@) =~= so_far.push(row@));
            }
        }
        i = i + 1;
    }
    proof {
        assert(all.take(all.len() as int) =~= all);
    }
}

proof fn lemma_consumer_at(consumers: Seq<ConsumerSnapshotView>, id: Seq<char>, i: int)
    requires
        0 <= i < consumers.len(),
        consumers[i].id == id,
        forall|k: int| 0 <= k < i ==> (#[trigger] consumers[k]).id != id,
    ensures
        consumer_at(consumers, id) == Some(i),
    decreases consumers.len(),
{
    let init = consumers.drop_last();
    if i == consumers.len() - 1 {
        lemma_no_consumer(init, id);
    } else {
        lemma_consumer_at(init, id, i);
    }
}

proof fn lemma_no_consumer(consumers: Seq<ConsumerSnapshotView>, id: Seq<char>)
    requires
        forall|k: int| 0 <= k < consumers.len() ==> (#[trigger] consumers[k]).id != id,
    ensures
        consumer_at(consumers, id) is None,
    decreases consumers.len(),
{
    if consumers.len() > 0 {
        lemma_no_consumer(consumers.drop_last(), id);
    }
}

fn attend(consumers: &mut Vec<ConsumerSnapshot>, session: &SessionInfo)
    ensures
        order::views(final(consumers)@) == attended(order::views(old(consumers)@), session@),
{
    let ghost before = order::views(consumers@);
    let mut i: usize = 0;
    while i < consumers.len()
        invariant
            i <= consumers@.len(),
            *consumers == *old(consumers),
            before == order::views(consumers@),
            before == order::views(old(consumers)@),
            forall|k: int| 0 <= k < i ==> (#[trigger] before[k]).id != session@.id,
        decreases consumers.len() - i,
    {
        assert(before[i as int] == consumers@[i as int]@);
        if text::text_eq(consumers[i].id.as_str(), session.id.as_str()) {
            proof {
                lemma_consumer_at(before, session@.id, i as int);
            }
            let row: ConsumerSnapshot = ConsumerSnapshot {
                id: consumers[i].id.clone(),
                name: consumers[i].name.clone(),
                last_seen_at: consumers[i].last_seen_at.clone(),
                live: true,
                attributes: consumers[i].attributes.clone(),
            };
            consumers.set(i, row);
            proof {
                assert(order::views(consumers@) =~= before.update(i as int, row@));
            }
            return ;
        }
        i = i + 1;
    }
    proof {
        lemma_no_consumer(before, session@.id);
    }
    let name: &str = match text::strip_prefix(session.id.as_str(), clients::MQTT_PREFIX) {
        Some(rest) => rest,
        None => session.id.as_str(),
    };
    let mut attributes: Attributes = TextMap::new();
    attributes.set("protocol".to_string(), session.protocol.to_string());
    let row: ConsumerSnapshot = ConsumerSnapshot {
        id: session.id.clone(),
        name: name.to_string(),
        last_seen_at: session.connected_at.clone(),
        live: true,
        attributes,
    };
    consumers.push(row);
    proof {
        assert(order::views(consumers@) =~= before.push(row@));
    }
}

fn attend_all(name: &str, consumers: &mut Vec<ConsumerSnapshot>, sessions: &[SessionInfo])
    ensures
        order::views(final(consumers)@) == all_attended(
            name@,
            order::views(old(consumers)@),
            order::views(sessions@),
        ),
{
    let ghost first = order::views(consumers@);
    let ghost all = order::views(sessions@);
    let mut i: usize = 0;
    proof {
        assert(all.take(0) =~= Seq::<SessionView>::empty());
    }
    while i < sessions.len()
        invariant
            i <= sessions@.len(),
            all == order::views(sessions@),
            order::views(consumers@) == all_attended(name@, first, all.take(i as int)),
        decreases sessions.len() - i,
    {
        proof {
            assert(all.take(i + 1).drop_last() =~= all.take(i as int));
            assert(all.take(i + 1).last() == sessions@[i as int]@);
        }
        if topic::filter_matches(sessions[i].topic.as_str(), name) {
            attend(consumers, &sessions[i]);
        }
        i = i + 1;
    }
    proof {
        assert(all.take(all.len() as int) =~= all);
    }
}

/// Adds the live sessions to the topics: topics that are only subscribed to, and
/// consumers that are only known by a session.
pub fn merge_live_sessions(topics: &mut Vec<TopicSnapshot>, sessions: &[SessionInfo])
    ensures
        order::views(final(topics)@) == merged(
            order::views(old(topics)@),
            order::views(sessions@),
        ),
{
    let ghost first = order::views(topics@);
    add_session_topics(topics, sessions);
    let ghost all = order::views(sessions@);
    let ghost target = merged(first, all);
    let mut taken: Vec<TopicSnapshot> = Vec::new();
    std::mem::swap(&mut taken, topics);
    let ghost source = taken@;
    let mut out: Vec<TopicSnapshot> = Vec::new();
    for row in it: taken
        invariant
            it.seq() == source,
            all == order::views(sessions@),
            order::views(source) == with_session_topics(first, all),
            target == merged(first, all),
            out@.len() == it.index(),
            forall|k: int| 0 <= k < it.index() ==> (#[trigger] out@[k])@ == target[k],
    {
        let ghost k = it.index();
        proof {
            assert(order::views(source)[k] == row@);
            assert(row@.consumers =~= order::views(row.consumers@));
        }
        let mut consumers: Vec<ConsumerSnapshot> = row.consumers;
        attend_all(row.name.as_str(), &mut consumers, sessions);
        let next: TopicSnapshot = TopicSnapshot { consumers, ..row };
        proof {
            assert(next@.consumers =~= order::views(consumers@));
        }
        out.push(next);
    }
    proof {
        assert(order::views(out@) =~= target);
    }
    *topics = out;
}

// -------------------------------------------------------------------- summary

/// A topic with the number of sessions that receive it, and its consumers with
/// whether they are live.
pub open spec fn counted(t: TopicSnapshotView, live: Live) -> TopicSnapshotView {
    TopicSnapshotView {
        streams: subscribers::receivers(live, t.name).len() as usize,
        consumers: t.consumers.map_values(
            |c: ConsumerSnapshotView|
                ConsumerSnapshotView {
                    live: c.live || subscribers::subscribed(live, t.name, c.id),
                    ..c
                },
        ),
        ..t
    }
}

pub open spec fn all_counted(topics: Seq<TopicSnapshotView>, live: Live) -> Seq<TopicSnapshotView> {
    topics.map_values(|t: TopicSnapshotView| counted(t, live))
}

fn count_topic(row: TopicSnapshot, live: &TopicSubscribers) -> (r: TopicSnapshot)
    ensures
        r@ == counted(row@, live@),
{
    let ghost before = row@.consumers;
    let streams: usize = live.matching_count(row.name.as_str());
    let mut consumers: Vec<ConsumerSnapshot> = Vec::new();
    let ghost source = row.consumers@;
    let name: String = row.name;
    let old_consumers: Vec<ConsumerSnapshot> = row.consumers;
    for c in it: old_consumers
        invariant
            it.seq() == source,
            name@ == row@.name,
            consumers@.len() == it.index(),
            forall|k: int|
                0 <= k < it.index() ==> (#[trigger] consumers@[k])@ == (ConsumerSnapshotView {
                    live: source[k]@.live || subscribers::subscribed(
                        live@,
                        name@,
                        source[k]@.id,
                    ),
                    ..source[k]@
                }),
    {
        let seen: bool = c.live || live.is_live(name.as_str(), c.id.as_str());
        consumers.push(ConsumerSnapshot { live: seen, ..c });
    }
    let r: TopicSnapshot = TopicSnapshot {
        name,
        accepted: row.accepted,
        duplicates: row.duplicates,
        pending: row.pending,
        processing: row.processing,
        delivered: row.delivered,
        failed: row.failed,
        streams,
        delivery: row.delivery,
        persistence: row.persistence,
        dropped: row.dropped,
        consumers,
    };
    proof {
        assert(r@.consumers =~= counted(row@, live@).consumers);
    }
    r
}

/// By the number of streams, the most first, then by name.
pub struct ByStreams;

impl Order<TopicSnapshot> for ByStreams {
    open spec fn leq(a: TopicSnapshotView, b: TopicSnapshotView) -> bool {
        a.streams > b.streams || (a.streams == b.streams && !text::text_less(b.name, a.name))
    }

    fn at_most(a: &TopicSnapshot, b: &TopicSnapshot) -> (r: bool) {
        a.streams > b.streams || (a.streams == b.streams && !text::less(
            b.name.as_str(),
            a.name.as_str(),
        ))
    }
}

/// The counters of all topics.
#[derive(Debug, Clone, Copy, PartialEq, Eq, Structural)]
pub struct Totals {
    pub consumers: usize,
    pub accepted: i64,
    pub duplicates: i64,
    pub pending: i64,
    pub processing: i64,
    pub delivered: i64,
    pub failed: i64,
    pub dropped: i64,
}

/// The sum of two numbers of streams; the largest number where it is too large.
pub open spec fn streams_sum(a: usize, b: usize) -> usize {
    if a + b > usize::MAX {
        usize::MAX
    } else {
        (a + b) as usize
    }
}

/// The counters of some topics. Sums that are out of range stop at the end of
/// the range.
pub open spec fn totals_of(topics: Seq<TopicSnapshotView>) -> Totals
    decreases topics.len(),
{
    if topics.len() == 0 {
        Totals {
            consumers: 0,
            accepted: 0,
            duplicates: 0,
            pending: 0,
            processing: 0,
            delivered: 0,
            failed: 0,
            dropped: 0,
        }
    } else {
        let before = totals_of(topics.drop_last());
        let last = topics.last();
        Totals {
            consumers: streams_sum(before.consumers, last.streams),
            accepted: catalog::sum(before.accepted, last.accepted),
            duplicates: catalog::sum(before.duplicates, last.duplicates),
            pending: catalog::sum(before.pending, last.pending),
            processing: catalog::sum(before.processing, last.processing),
            delivered: catalog::sum(before.delivered, last.delivered),
            failed: catalog::sum(before.failed, last.failed),
            dropped: catalog::sum(before.dropped, last.dropped),
        }
    }
}

fn add_up(topics: &Vec<TopicSnapshot>) -> (r: Totals)
    ensures
        r == totals_of(order::views(topics@)),
{
    let ghost all = order::views(topics@);
    let mut t: Totals = Totals {
        consumers: 0,
        accepted: 0,
        duplicates: 0,
        pending: 0,
        processing: 0,
        delivered: 0,
        failed: 0,
        dropped: 0,
    };
    let mut i: usize = 0;
    while i < topics.len()
        invariant
            i <= topics@.len(),
            all == order::views(topics@),
            t == totals_of(all.take(i as int)),
        decreases topics.len() - i,
    {
        proof {
            assert(all.take(i + 1).drop_last() =~= all.take(i as int));
            assert(all.take(i + 1).last() == topics@[i as int]@);
        }
        let row: &TopicSnapshot = &topics[i];
        t = Totals {
            consumers: match t.consumers.checked_add(row.streams) {
                Some(n) => n,
                None => usize::MAX,
            },
            accepted: catalog::sum_counts(t.accepted, row.accepted),
            duplicates: catalog::sum_counts(t.duplicates, row.duplicates),
            pending: catalog::sum_counts(t.pending, row.pending),
            processing: catalog::sum_counts(t.processing, row.processing),
            delivered: catalog::sum_counts(t.delivered, row.delivered),
            failed: catalog::sum_counts(t.failed, row.failed),
            dropped: catalog::sum_counts(t.dropped, row.dropped),
        };
        i = i + 1;
    }
    proof {
        assert(all.take(all.len() as int) =~= all);
    }
    t
}

/// What the status page shows of the broker.
pub struct BrokerStatus {
    pub totals: Totals,
    pub clients: Vec<ClientInfo>,
    pub topics_detail: Vec<TopicSnapshot>,
}

/// The topics as they are shown: with the live sessions, those with the most
/// streams first.
pub open spec fn topics_shown(
    topics: Seq<TopicSnapshotView>,
    sessions: Seq<SessionView>,
    live: Live,
) -> Seq<TopicSnapshotView> {
    order::ordered(
        all_counted(merged(topics, sessions), live),
        order::relation::<TopicSnapshot, ByStreams>(),
    )
}

/// Puts together what the status page shows, from the topics of the store, the
/// live subscriptions and the connected clients.
pub fn broker_status(
    topics: Vec<TopicSnapshot>,
    sessions: &[SessionInfo],
    live: &TopicSubscribers,
    mqtt_clients: &[MqttClientInfo],
    grpc_clients: &[GrpcClientInfo],
) -> (r: BrokerStatus)
    ensures
        order::views(r.topics_detail@) == topics_shown(
            order::views(topics@),
            order::views(sessions@),
            live@,
        ),
        order::views(r.clients@) == clients::clients_listed(
            order::views(sessions@),
            order::views(mqtt_clients@),
            order::views(grpc_clients@),
            order::views(r.topics_detail@),
        ),
        r.totals == totals_of(order::views(r.topics_detail@)),
{
    let mut rows: Vec<TopicSnapshot> = topics;
    merge_live_sessions(&mut rows, sessions);
    let ghost source = rows@;
    let ghost target = all_counted(order::views(source), live@);
    let mut out: Vec<TopicSnapshot> = Vec::new();
    for row in it: rows
        invariant
            it.seq() == source,
            target == all_counted(order::views(source), live@),
            out@.len() == it.index(),
            forall|k: int| 0 <= k < it.index() ==> (#[trigger] out@[k])@ == target[k],
    {
        let ghost k = it.index();
        proof {
            assert(order::views(source)[k] == row@);
        }
        out.push(count_topic(row, live));
    }
    proof {
        assert(order::views(out@) =~= target);
    }
    let topics_detail: Vec<TopicSnapshot> = order::sort::<TopicSnapshot, ByStreams>(out);
    let shown: Vec<ClientInfo> = clients::connected_clients(
        sessions,
        mqtt_clients,
        grpc_clients,
        topics_detail.as_slice(),
    );
    let totals: Totals = add_up(&topics_detail);
    BrokerStatus { totals, clients: shown, topics_detail }
}

// -------------------------------------------------------------------- laws

/// Where a token is expected, a request that does not carry it sees nothing but
/// the health check, and the health check is open to every request.
pub proof fn law_only_the_health_check_is_open(
    path: Seq<char>,
    web_base: Option<Seq<char>>,
    token: Seq<char>,
    authorization: Option<Seq<char>>,
    query: Option<Seq<char>>,
)
    requires
        auth::request_token(authorization, query) != Some(token),
    ensures
        passes(path, web_base, Some(token), authorization, query) <==> health_path(path, web_base),
{
}

proof fn lemma_cut(bytes: Seq<u8>, end: int)
    requires
        valid_utf8(bytes),
        0 <= end,
    ensures
        0 <= cut_at(bytes, end) <= end,
        is_char_boundary(bytes, cut_at(bytes, end)),
    decreases end,
{
    if end > 0 && !is_char_boundary(bytes, end) {
        lemma_cut(bytes, end - 1);
    }
}

/// The preview of a text is the beginning of the text, and no longer than the
/// limit.
pub proof fn law_a_preview_is_the_beginning(payload: Seq<u8>)
    requires
        valid_utf8(payload),
    ensures
        preview(payload).0.is_prefix_of(decode_utf8(payload)),
        encode_utf8(preview(payload).0).len() <= MESSAGE_PREVIEW_BYTES,
        preview(payload).2 == (payload.len() > MESSAGE_PREVIEW_BYTES),
{
    if payload.len() > MESSAGE_PREVIEW_BYTES {
        let end = cut_at(payload, MESSAGE_PREVIEW_BYTES as int);
        lemma_cut(payload, MESSAGE_PREVIEW_BYTES as int);
        valid_utf8_split(payload, end);
        decode_utf8_split(payload, end);
        let front = payload.subrange(0, end);
        let back = payload.subrange(end, payload.len() as int);
        decode_utf8_encode_utf8(front);
        assert(decode_utf8(payload).take(decode_utf8(front).len() as int) =~= decode_utf8(front));
    } else {
        decode_utf8_encode_utf8(payload);
        assert(decode_utf8(payload).take(decode_utf8(payload).len() as int) =~= decode_utf8(
            payload,
        ));
    }
}

proof fn lemma_with_session_topics(
    topics: Seq<TopicSnapshotView>,
    sessions: Seq<SessionView>,
    name: Seq<char>,
)
    requires
        has_topic(topics, name) || exists|i: int|
            0 <= i < sessions.len() && (#[trigger] sessions[i]).topic == name,
    ensures
        has_topic(with_session_topics(topics, sessions), name),
    decreases sessions.len(),
{
    if sessions.len() > 0 {
        let init = sessions.drop_last();
        let before = with_session_topics(topics, init);
        let after = with_session_topics(topics, sessions);
        if sessions.last().topic == name {
            if !has_topic(before, name) {
                assert(after[before.len() as int].name == name);
            }
        } else {
            if !has_topic(topics, name) {
                let i = choose|i: int|
                    0 <= i < sessions.len() && (#[trigger] sessions[i]).topic == name;
                assert(init[i].topic == name);
            }
            lemma_with_session_topics(topics, init, name);
            let k = choose|k: int| 0 <= k < before.len() && (#[trigger] before[k]).name == name;
            assert(after[k].name == name);
        }
    }
}

/// Every topic that is subscribed to is shown, and none that was there is lost.
pub proof fn law_every_subscribed_topic_is_shown(
    topics: Seq<TopicSnapshotView>,
    sessions: Seq<SessionView>,
    name: Seq<char>,
)
    requires
        has_topic(topics, name) || exists|i: int|
            0 <= i < sessions.len() && (#[trigger] sessions[i]).topic == name,
    ensures
        has_topic(merged(topics, sessions), name),
{
    lemma_with_session_topics(topics, sessions, name);
    let before = with_session_topics(topics, sessions);
    let k = choose|k: int| 0 <= k < before.len() && (#[trigger] before[k]).name == name;
    assert(merged(topics, sessions)[k].name == name);
}

proof fn lemma_first_consumer(consumers: Seq<ConsumerSnapshotView>, id: Seq<char>)
    ensures
        match consumer_at(consumers, id) {
            Some(i) => 0 <= i < consumers.len() && consumers[i].id == id && (forall|k: int|
                0 <= k < i ==> (#[trigger] consumers[k]).id != id),
            None => forall|k: int| 0 <= k < consumers.len() ==> (#[trigger] consumers[k]).id != id,
        },
    decreases consumers.len(),
{
    if consumers.len() > 0 {
        let init = consumers.drop_last();
        lemma_first_consumer(init, id);
        match consumer_at(init, id) {
            Some(i) => {
                assert forall|k: int| 0 <= k < i implies (#[trigger] consumers[k]).id != id by {
                    assert(init[k].id != id);
                }
            },
            None => {
                assert forall|k: int| 0 <= k < init.len() implies (#[trigger] consumers[k]).id
                    != id by {
                    assert(init[k].id != id);
                }
            },
        }
    }
}

/// Rows that agree in their ids, and what is behind them, do not change where an id
/// is found first.
proof fn lemma_consumer_stays(
    a: Seq<ConsumerSnapshotView>,
    b: Seq<ConsumerSnapshotView>,
    id: Seq<char>,
)
    requires
        a.len() <= b.len(),
        forall|k: int| 0 <= k < a.len() ==> (#[trigger] b[k]).id == a[k].id,
        consumer_at(a, id) is Some,
    ensures
        consumer_at(b, id) == consumer_at(a, id),
{
    lemma_first_consumer(a, id);
    lemma_first_consumer(b, id);
    let i = consumer_at(a, id)->0;
    assert(b[i].id == id);
    match consumer_at(b, id) {
        Some(j) => {
            if j < i {
                assert(a[j].id != id);
            }
        },
        None => {},
    }
}

/// Whether a consumer with the id is there, and the first of them is live.
pub open spec fn is_attended(consumers: Seq<ConsumerSnapshotView>, id: Seq<char>) -> bool {
    consumer_at(consumers, id) matches Some(i) && consumers[i].live
}

/// Whether one of the sessions is called `id` and receives the topic.
pub open spec fn attends(name: Seq<char>, sessions: Seq<SessionView>, id: Seq<char>) -> bool {
    exists|i: int|
        0 <= i < sessions.len() && (#[trigger] sessions[i]).id == id && topic::selects(
            sessions[i].topic,
            name,
        )
}

/// What attending does to the consumers of a topic.
proof fn lemma_all_attended(
    name: Seq<char>,
    consumers: Seq<ConsumerSnapshotView>,
    sessions: Seq<SessionView>,
)
    ensures
        ({
            let after = all_attended(name, consumers, sessions);
            &&& consumers.len() <= after.len()
            &&& forall|k: int|
                0 <= k < consumers.len() ==> #[trigger] after[k] == (ConsumerSnapshotView {
                    live: after[k].live,
                    ..consumers[k]
                }) && (consumers[k].live ==> after[k].live)
            &&& forall|k: int|
                0 <= k < consumers.len() && !attends(name, sessions, consumers[k].id)
                    ==> #[trigger] after[k] == consumers[k]
            &&& forall|k: int|
                consumers.len() <= k < after.len() ==> consumer_at(
                    after,
                    (#[trigger] after[k]).id,
                ) == Some(k) && after[k].live && attends(name, sessions, after[k].id)
            &&& forall|i: int|
                0 <= i < sessions.len() && topic::selects(sessions[i].topic, name)
                    ==> is_attended(after, (#[trigger] sessions[i]).id)
        }),
    decreases sessions.len(),
{
    if sessions.len() > 0 {
        let init = sessions.drop_last();
        let last = sessions.last();
        let before = all_attended(name, consumers, init);
        let after = all_attended(name, consumers, sessions);
        lemma_all_attended(name, consumers, init);
        assert forall|id: Seq<char>| attends(name, init, id) implies #[trigger] attends(
            name,
            sessions,
            id,
        ) by {
            let i = choose|i: int|
                0 <= i < init.len() && (#[trigger] init[i]).id == id && topic::selects(
                    init[i].topic,
                    name,
                );
            assert(sessions[i] == init[i]);
        }
        if topic::selects(last.topic, name) {
            lemma_first_consumer(before, last.id);
            assert(sessions[sessions.len() - 1] == last);
            assert(attends(name, sessions, last.id));
            assert forall|k: int| 0 <= k < before.len() implies (#[trigger] after[k]).id
                == before[k].id by {}
            assert forall|k: int| consumers.len() <= k < after.len() implies consumer_at(
                after,
                (#[trigger] after[k]).id,
            ) == Some(k) && after[k].live && attends(name, sessions, after[k].id) by {
                if k < before.len() {
                    assert(consumer_at(before, before[k].id) == Some(k));
                    lemma_consumer_stays(before, after, before[k].id);
                } else {
                    lemma_first_consumer(after, last.id);
                }
            }
            assert forall|i: int|
                0 <= i < sessions.len() && topic::selects(
                    sessions[i].topic,
                    name,
                ) implies is_attended(after, (#[trigger] sessions[i]).id) by {
                if i < init.len() {
                    assert(init[i] == sessions[i]);
                    assert(is_attended(before, init[i].id));
                    lemma_first_consumer(before, init[i].id);
                    lemma_consumer_stays(before, after, init[i].id);
                } else {
                    lemma_first_consumer(after, last.id);
                    if consumer_at(before, last.id) is Some {
                        lemma_consumer_stays(before, after, last.id);
                    }
                }
            }
        } else {
            assert forall|i: int|
                0 <= i < sessions.len() && topic::selects(
                    sessions[i].topic,
                    name,
                ) implies is_attended(after, (#[trigger] sessions[i]).id) by {
                assert(init[i] == sessions[i]);
            }
        }
    }
}

/// Attending where everybody is attended changes nothing.
proof fn lemma_attended_again(
    name: Seq<char>,
    consumers: Seq<ConsumerSnapshotView>,
    sessions: Seq<SessionView>,
)
    requires
        forall|i: int|
            0 <= i < sessions.len() && topic::selects(sessions[i].topic, name) ==> is_attended(
                consumers,
                (#[trigger] sessions[i]).id,
            ),
    ensures
        all_attended(name, consumers, sessions) == consumers,
    decreases sessions.len(),
{
    if sessions.len() > 0 {
        let init = sessions.drop_last();
        let last = sessions.last();
        assert forall|i: int|
            0 <= i < init.len() && topic::selects(init[i].topic, name) implies is_attended(
            consumers,
            (#[trigger] init[i]).id,
        ) by {
            assert(sessions[i] == init[i]);
        }
        lemma_attended_again(name, consumers, init);
        if topic::selects(last.topic, name) {
            assert(sessions[sessions.len() - 1] == last);
            lemma_first_consumer(consumers, last.id);
            assert(attended(consumers, last) =~= consumers);
        }
    }
}

proof fn lemma_topics_again(topics: Seq<TopicSnapshotView>, sessions: Seq<SessionView>)
    requires
        forall|i: int| 0 <= i < sessions.len() ==> has_topic(topics, (#[trigger] sessions[i]).topic),
    ensures
        with_session_topics(topics, sessions) == topics,
    decreases sessions.len(),
{
    if sessions.len() > 0 {
        let init = sessions.drop_last();
        assert forall|i: int| 0 <= i < init.len() implies has_topic(
            topics,
            (#[trigger] init[i]).topic,
        ) by {
            assert(sessions[i] == init[i]);
        }
        lemma_topics_again(topics, init);
        assert(has_topic(topics, sessions[sessions.len() - 1].topic));
    }
}

/// Merging the same live sessions a second time changes nothing.
pub proof fn law_merging_twice_is_merging_once(
    topics: Seq<TopicSnapshotView>,
    sessions: Seq<SessionView>,
)
    ensures
        merged(merged(topics, sessions), sessions) == merged(topics, sessions),
{
    let once = merged(topics, sessions);
    assert forall|i: int| 0 <= i < sessions.len() implies has_topic(
        once,
        (#[trigger] sessions[i]).topic,
    ) by {
        law_every_subscribed_topic_is_shown(topics, sessions, sessions[i].topic);
    }
    lemma_topics_again(once, sessions);
    let twice = merged(once, sessions);
    assert forall|i: int| 0 <= i < once.len() implies #[trigger] twice[i] == once[i] by {
        let t = with_session_topics(topics, sessions)[i];
        lemma_all_attended(t.name, t.consumers, sessions);
        lemma_attended_again(t.name, once[i].consumers, sessions);
    }
    assert(twice =~= once);
}

proof fn lemma_session_topics(topics: Seq<TopicSnapshotView>, sessions: Seq<SessionView>)
    ensures
        ({
            let all = with_session_topics(topics, sessions);
            &&& topics.len() <= all.len()
            &&& forall|i: int| 0 <= i < topics.len() ==> #[trigger] all[i] == topics[i]
            &&& forall|i: int|
                topics.len() <= i < all.len() ==> #[trigger] all[i] == session_topic(all[i].name)
                    && (exists|k: int|
                    0 <= k < sessions.len() && (#[trigger] sessions[k]).topic == all[i].name)
            &&& forall|i: int, j: int|
                0 <= i < j < all.len() && topics.len() <= j ==> (#[trigger] all[i]).name != (
                #[trigger] all[j]).name
        }),
    decreases sessions.len(),
{
    if sessions.len() > 0 {
        let init = sessions.drop_last();
        let before = with_session_topics(topics, init);
        let all = with_session_topics(topics, sessions);
        lemma_session_topics(topics, init);
        assert forall|i: int| topics.len() <= i < all.len() implies #[trigger] all[i]
            == session_topic(all[i].name) && (exists|k: int|
            0 <= k < sessions.len() && (#[trigger] sessions[k]).topic == all[i].name) by {
            if i < before.len() {
                assert(before[i] == all[i]);
                let k = choose|k: int|
                    0 <= k < init.len() && (#[trigger] init[k]).topic == before[i].name;
                assert(sessions[k].topic == all[i].name);
            } else {
                assert(sessions[sessions.len() - 1].topic == all[i].name);
            }
        }
        assert forall|i: int, j: int| 0 <= i < j < all.len() && topics.len() <= j implies (
        #[trigger] all[i]).name != (#[trigger] all[j]).name by {
            if j < before.len() {
                assert(before[i].name != before[j].name);
            } else {
                assert(before[i].name == all[i].name);
            }
        }
    }
}

/// Merging keeps the topics that are there in their places, with all but their
/// consumers, and puts the topics that are only subscribed to behind them, each
/// once, blank and with the words for a subscription.
pub proof fn law_merging_keeps_the_topics(
    topics: Seq<TopicSnapshotView>,
    sessions: Seq<SessionView>,
    i: int,
)
    requires
        0 <= i < merged(topics, sessions).len(),
    ensures
        topics.len() <= merged(topics, sessions).len(),
        ({
            let row = merged(topics, sessions)[i];
            if i < topics.len() {
                row == (TopicSnapshotView {
                    consumers: all_attended(topics[i].name, topics[i].consumers, sessions),
                    ..topics[i]
                })
            } else {
                &&& row == (TopicSnapshotView {
                    consumers: all_attended(row.name, Seq::empty(), sessions),
                    ..session_topic(row.name)
                })
                &&& exists|k: int|
                    0 <= k < sessions.len() && (#[trigger] sessions[k]).topic == row.name
                &&& forall|k: int|
                    0 <= k < i ==> (#[trigger] merged(topics, sessions)[k]).name != row.name
            }
        }),
{
    lemma_session_topics(topics, sessions);
    let all = with_session_topics(topics, sessions);
    if i >= topics.len() {
        assert(all[i] == session_topic(all[i].name));
        assert forall|k: int| 0 <= k < i implies (#[trigger] merged(topics, sessions)[k]).name
            != merged(topics, sessions)[i].name by {
            assert(all[k].name != all[i].name);
        }
    }
}

/// Merging keeps the consumers of a topic in their places. A session that receives
/// the topic makes the consumer with its id live, or is added behind them, once
/// and only where the id was missing. All other consumers stay as they are.
pub proof fn law_merging_keeps_the_consumers(
    name: Seq<char>,
    consumers: Seq<ConsumerSnapshotView>,
    sessions: Seq<SessionView>,
)
    ensures
        ({
            let after = all_attended(name, consumers, sessions);
            &&& consumers.len() <= after.len()
            &&& forall|k: int|
                0 <= k < consumers.len() ==> #[trigger] after[k] == (ConsumerSnapshotView {
                    live: after[k].live,
                    ..consumers[k]
                }) && (consumers[k].live ==> after[k].live)
            &&& forall|k: int|
                0 <= k < consumers.len() && !attends(name, sessions, consumers[k].id)
                    ==> #[trigger] after[k] == consumers[k]
            &&& forall|k: int|
                consumers.len() <= k < after.len() ==> consumer_at(
                    after,
                    (#[trigger] after[k]).id,
                ) == Some(k) && after[k].live && attends(name, sessions, after[k].id)
            &&& forall|i: int|
                0 <= i < sessions.len() && topic::selects(sessions[i].topic, name)
                    ==> is_attended(after, (#[trigger] sessions[i]).id)
        }),
{
    lemma_all_attended(name, consumers, sessions);
}

/// The health check is at its own path, with and without the base. It is open
/// to everyone; every other path is open where no token is expected or the
/// expected one comes.
pub proof fn law_a_path_is_open_to_its_token(
    path: Seq<char>,
    base: Seq<char>,
    token: Seq<char>,
    authorization: Option<Seq<char>>,
    query: Option<Seq<char>>,
)
    ensures
        health_path("/health"@, None),
        health_path("/health"@, Some(base)),
        health_path(base + "/health"@, Some(base)),
        path != "/health"@ ==> !health_path(path, None),
        path != "/health"@ && path != base + "/health"@ ==> !health_path(path, Some(base)),
        passes("/health"@, None, Some(token), authorization, query),
        passes(path, None, None, authorization, query),
        path != "/health"@ ==> passes(path, None, Some(token), authorization, query) == (
        auth::request_token(authorization, query) == Some(token)),
{
}

/// The page names the base under which it is found, with one slash behind it,
/// and is the same otherwise.
pub proof fn law_the_page_names_its_base(base: Seq<char>)
    requires
        base.len() > 0,
        base.last() != '/',
    ensures
        page_for(None) == page::PAGE_START@ + page::PAGE_REST@,
        page_for(Some(base)) == page::PAGE_START@ + ("\n  <base href=\""@ + base + "/\">"@)
            + page::PAGE_REST@,
        page_for(Some(base.push('/'))) == page_for(Some(base)),
{
    assert(text::trimmed_end_of(base, '/') == base);
    assert(base.push('/').drop_last() =~= base);
    assert(text::trimmed_end_of(base.push('/'), '/') == text::trimmed_end_of(base, '/')) by {
        assert(base.push('/').last() == '/');
        reveal_with_fuel(text::trim_end_by, 2);
    }
}

/// A text is shown as text and anything else in base64. What is no longer than
/// sixty-four KiB is shown whole, and of what is longer no more than that.
pub proof fn law_a_short_payload_is_shown_whole(payload: Seq<u8>)
    ensures
        valid_utf8(payload) ==> preview(payload).1 == "utf-8"@,
        !valid_utf8(payload) ==> preview(payload).1 == "base64"@,
        preview(payload).2 <==> payload.len() > 65536,
        valid_utf8(payload) && payload.len() <= 65536 ==> preview(payload).0 == decode_utf8(
            payload,
        ),
        !valid_utf8(payload) && payload.len() <= 65536 ==> preview(payload).0 == model::base64_of(
            payload,
        ),
        !valid_utf8(payload) && payload.len() > 65536 ==> preview(payload).0 == model::base64_of(
            payload.subrange(0, 65536),
        ),
{
}

/// A long text is cut between two characters, and before the limit only where a
/// character reaches across it.
pub proof fn law_a_long_text_is_cut_at_a_character(payload: Seq<u8>, k: int)
    requires
        valid_utf8(payload),
        payload.len() > 65536,
    ensures
        ({
            let end = cut_at(payload, 65536);
            &&& 0 <= end <= 65536
            &&& is_char_boundary(payload, end)
            &&& preview(payload).0 == decode_utf8(payload.subrange(0, end))
            &&& end < k <= 65536 ==> !is_char_boundary(payload, k)
        }),
{
    lemma_cut(payload, 65536);
    if cut_at(payload, 65536) < k <= 65536 {
        lemma_cut_latest(payload, 65536, k);
    }
}

proof fn lemma_cut_latest(bytes: Seq<u8>, end: int, k: int)
    requires
        cut_at(bytes, end) < k <= end,
        0 <= end,
    ensures
        !is_char_boundary(bytes, k),
    decreases end,
{
    if end > 0 && !is_char_boundary(bytes, end) && k < end {
        lemma_cut_latest(bytes, end - 1, k);
    }
}

/// A topic that is only subscribed to is shown as broadcast and persistent, with
/// no numbers.
pub proof fn law_a_subscribed_topic_has_no_numbers(name: Seq<char>)
    ensures
        session_topic(name).name == name,
        session_topic(name).delivery == "broadcast"@,
        session_topic(name).persistence == "persistent"@,
        session_topic(name).accepted == 0,
        session_topic(name).duplicates == 0,
        session_topic(name).pending == 0,
        session_topic(name).processing == 0,
        session_topic(name).delivered == 0,
        session_topic(name).failed == 0,
        session_topic(name).dropped == 0,
        session_topic(name).streams == 0,
        session_topic(name).consumers.len() == 0,
{
}

/// A live session that did not register is shown as a consumer: live, seen when
/// it connected, with its protocol, and named as it is without the mark of MQTT
/// sessions.
pub proof fn law_a_session_is_shown_as_a_consumer(session: SessionView, name: Seq<char>)
    ensures
        session_consumer(session).id == session.id,
        session_consumer(session).last_seen_at == session.connected_at,
        session_consumer(session).live,
        session_consumer(session).attributes.contains_key("protocol"@),
        session_consumer(session).attributes["protocol"@] == session.protocol,
        forall|key: Seq<char>|
            key != "protocol"@ ==> !#[trigger] session_consumer(session).attributes.contains_key(
                key,
            ),
        session.id == "mqtt:"@ + name ==> session_consumer(session).name == name,
        !"mqtt:"@.is_prefix_of(session.id) ==> session_consumer(session).name == session.id,
{
    text::law_a_prefix_is_taken_off("mqtt:"@, name, session.id);
}

/// A topic counts the sessions that receive it. A consumer that subscribes to
/// the topic by its very name is live, and who was live stays so.
pub proof fn law_a_topic_counts_its_streams(t: TopicSnapshotView, live: Live, k: int)
    requires
        subscribers::receivers(live, t.name).len() <= usize::MAX,
        0 <= k < t.consumers.len(),
    ensures
        counted(t, live).streams == subscribers::receivers(live, t.name).len(),
        counted(t, live).name == t.name,
        counted(t, live).accepted == t.accepted,
        counted(t, live).pending == t.pending,
        counted(t, live).consumers.len() == t.consumers.len(),
        counted(t, live).consumers[k].id == t.consumers[k].id,
        counted(t, live).consumers[k].name == t.consumers[k].name,
        counted(t, live).consumers[k].live <==> t.consumers[k].live || subscribers::subscribed(
            live,
            t.name,
            t.consumers[k].id,
        ),
        forall|s: Seq<char>| #[trigger]
            subscribers::receivers(live, t.name).contains(s) <==> subscribers::receives(
                live,
                t.name,
                s,
            ),
{
}

/// The topics with the most streams come first, and those with as many go by
/// name.
pub proof fn law_busy_topics_come_first(
    topics: Seq<TopicSnapshotView>,
    sessions: Seq<SessionView>,
    live: Live,
    i: int,
    j: int,
)
    requires
        0 <= i < j < topics_shown(topics, sessions, live).len(),
    ensures
        ({
            let a = topics_shown(topics, sessions, live)[i];
            let b = topics_shown(topics, sessions, live)[j];
            &&& a.streams >= b.streams
            &&& a.streams == b.streams ==> !text::text_less(b.name, a.name)
        }),
        topics_shown(topics, sessions, live).to_multiset() == all_counted(
            merged(topics, sessions),
            live,
        ).to_multiset(),
{
    let leq = order::relation::<TopicSnapshot, ByStreams>();
    assert forall|a: TopicSnapshotView, b: TopicSnapshotView| #[trigger] leq(a, b) || leq(b, a) by {
        text::lemma_text_less_order(a.name, b.name, a.name);
    }
    assert forall|a: TopicSnapshotView, b: TopicSnapshotView, c: TopicSnapshotView| #[trigger]
        leq(a, b) && #[trigger] leq(b, c) implies leq(a, c) by {
        text::lemma_text_less_order(a.name, b.name, c.name);
    }
    order::law_ordered(all_counted(merged(topics, sessions), live), leq);
    let list = topics_shown(topics, sessions, live);
    assert(leq(list[i], list[j]));
}

/// The totals add up the numbers of the topics, one by one.
pub proof fn law_totals_add_up(topics: Seq<TopicSnapshotView>, t: TopicSnapshotView)
    ensures
        ({
            let before = totals_of(topics);
            let after = totals_of(topics.push(t));
            &&& before.consumers + t.streams <= usize::MAX ==> after.consumers == before.consumers
                + t.streams
            &&& after.accepted == catalog::sum(before.accepted, t.accepted)
            &&& after.duplicates == catalog::sum(before.duplicates, t.duplicates)
            &&& after.pending == catalog::sum(before.pending, t.pending)
            &&& after.processing == catalog::sum(before.processing, t.processing)
            &&& after.delivered == catalog::sum(before.delivered, t.delivered)
            &&& after.failed == catalog::sum(before.failed, t.failed)
            &&& after.dropped == catalog::sum(before.dropped, t.dropped)
        }),
        ({
            let none = totals_of(Seq::empty());
            &&& none.consumers == 0
            &&& none.accepted == 0 && none.duplicates == 0 && none.pending == 0
            &&& none.processing == 0 && none.delivered == 0 && none.failed == 0
            &&& none.dropped == 0
        }),
{
    assert(topics.push(t).drop_last() =~= topics);
}

} // verus!
