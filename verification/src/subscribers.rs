//! Live subscriptions and outstanding acknowledgements.
//!
//! The stream to a subscriber is known here by a number.
use vstd::prelude::*;
use vstd::string::*;

use crate::clock;
use crate::clock::UtcTime;
use crate::table::TextMap;
use crate::text;
use crate::topic;

verus! {

/// The number of a stream to a subscriber.
pub type StreamSender = u64;

/// A live subscription.
#[derive(Debug)]
pub struct SessionInfo {
    pub id: String,
    pub topic: String,
    pub peer: String,
    pub connected_at: String,
    pub protocol: &'static str,
    pub version: String,
    pub host: String,
}

#[verifier::ext_equal]
pub struct SessionView {
    pub id: Seq<char>,
    pub topic: Seq<char>,
    pub peer: Seq<char>,
    pub connected_at: Seq<char>,
    pub protocol: Seq<char>,
    pub version: Seq<char>,
    pub host: Seq<char>,
}

impl View for SessionInfo {
    type V = SessionView;

    open spec fn view(&self) -> SessionView {
        SessionView {
            id: self.id@,
            topic: self.topic@,
            peer: self.peer@,
            connected_at: self.connected_at@,
            protocol: self.protocol@,
            version: self.version@,
            host: self.host@,
        }
    }
}

impl Clone for SessionInfo {
    fn clone(&self) -> (r: Self)
        ensures
            r@ == self@,
    {
        SessionInfo {
            id: self.id.clone(),
            topic: self.topic.clone(),
            peer: self.peer.clone(),
            connected_at: self.connected_at.clone(),
            protocol: self.protocol,
            version: self.version.clone(),
            host: self.host.clone(),
        }
    }
}

pub struct LiveEntry {
    pub info: SessionInfo,
    pub tx: StreamSender,
}

#[verifier::ext_equal]
pub struct LiveView {
    pub info: SessionView,
    pub tx: StreamSender,
}

impl View for LiveEntry {
    type V = LiveView;

    open spec fn view(&self) -> LiveView {
        LiveView { info: self.info@, tx: self.tx }
    }
}

/// The live subscriptions, by filter and by session.
pub type Live = Map<Seq<char>, Map<Seq<char>, LiveView>>;

/// The live subscriptions.
pub struct TopicSubscribers {
    topics: TextMap<TextMap<LiveEntry>>,
}

impl View for TopicSubscribers {
    type V = Live;

    closed spec fn view(&self) -> Live {
        self.topics@
    }
}

pub open spec fn sessions_of(live: Live, topic: Seq<char>) -> Map<Seq<char>, LiveView> {
    if live.contains_key(topic) {
        live[topic]
    } else {
        Map::empty()
    }
}

/// The subscriptions with one more.
pub open spec fn added(live: Live, topic: Seq<char>, session: Seq<char>, entry: LiveView) -> Live {
    live.insert(topic, sessions_of(live, topic).insert(session, entry))
}

/// The subscriptions without one. A filter without sessions is forgotten.
pub open spec fn removed(live: Live, topic: Seq<char>, session: Seq<char>) -> Live {
    if !live.contains_key(topic) {
        live
    } else {
        let rest = live[topic].remove(session);
        if rest.dom().len() == 0 {
            live.remove(topic)
        } else {
            live.insert(topic, rest)
        }
    }
}

/// Whether a session subscribes to exactly this filter.
pub open spec fn subscribed(live: Live, topic: Seq<char>, session: Seq<char>) -> bool {
    live.contains_key(topic) && live[topic].contains_key(session)
}

/// Whether a filter selects the topic and has a session.
pub open spec fn serves(live: Live, filter: Seq<char>, topic: Seq<char>) -> bool {
    live.contains_key(filter) && live[filter].dom().len() > 0 && topic::selects(filter, topic)
}

/// Whether anybody receives what is published to a topic.
pub open spec fn covered(live: Live, topic: Seq<char>) -> bool {
    exists|filter: Seq<char>| serves(live, filter, topic)
}

/// Whether a session receives what is published to a topic through a filter.
pub open spec fn receives_by(
    live: Live,
    filter: Seq<char>,
    topic: Seq<char>,
    session: Seq<char>,
) -> bool {
    live.contains_key(filter) && topic::selects(filter, topic) && live[filter].contains_key(session)
}

/// Whether a session receives what is published to a topic.
pub open spec fn receives(live: Live, topic: Seq<char>, session: Seq<char>) -> bool {
    exists|filter: Seq<char>| receives_by(live, filter, topic, session)
}

/// The sessions that receive what is published to a topic.
pub open spec fn receivers(live: Live, topic: Seq<char>) -> Set<Seq<char>> {
    Set::new(|session: Seq<char>| receives(live, topic, session))
}

/// Whether a stream is that of a subscription through which a session receives
/// what is published to a topic.
pub open spec fn receives_on(
    live: Live,
    topic: Seq<char>,
    session: Seq<char>,
    tx: StreamSender,
) -> bool {
    exists|filter: Seq<char>|
        #[trigger] receives_by(live, filter, topic, session) && live[filter][session].tx == tx
}

pub open spec fn sender_views(list: Seq<(String, StreamSender)>) -> Seq<(Seq<char>, StreamSender)> {
    list.map_values(|p: (String, StreamSender)| (p.0@, p.1))
}

pub open spec fn session_ids(list: Seq<(Seq<char>, StreamSender)>) -> Seq<Seq<char>> {
    list.map_values(|p: (Seq<char>, StreamSender)| p.0)
}

/// Every session that receives what is published to a topic, once, with the
/// stream of one of its subscriptions to the topic.
pub open spec fn are_receivers(
    live: Live,
    topic: Seq<char>,
    list: Seq<(Seq<char>, StreamSender)>,
) -> bool {
    &&& session_ids(list).no_duplicates()
    &&& forall|s: Seq<char>| #[trigger]
        session_ids(list).contains(s) <==> receives(live, topic, s)
    &&& forall|i: int|
        0 <= i < list.len() ==> receives_on(
            live,
            topic,
            (#[trigger] list[i]).0,
            list[i].1,
        )
}

/// Every subscription once, ordered by filter and session.
pub open spec fn are_sessions(
    live: Live,
    keys: Seq<(Seq<char>, Seq<char>)>,
    list: Seq<SessionView>,
) -> bool {
    &&& keys.len() == list.len()
    &&& forall|i: int, j: int|
        0 <= i < j < keys.len() ==> key_before(#[trigger] keys[i], #[trigger] keys[j])
    &&& forall|t: Seq<char>, s: Seq<char>|
        subscribed(live, t, s) <==> #[trigger] keys.contains((t, s))
    &&& forall|i: int|
        0 <= i < list.len() ==> #[trigger] list[i] == live[keys[i].0][keys[i].1].info
}

pub open spec fn key_before(a: (Seq<char>, Seq<char>), b: (Seq<char>, Seq<char>)) -> bool {
    text::text_less(a.0, b.0) || (a.0 == b.0 && text::text_less(a.1, b.1))
}

pub open spec fn session_views(list: Seq<SessionInfo>) -> Seq<SessionView> {
    list.map_values(|s: SessionInfo| s@)
}

impl Default for TopicSubscribers {
    fn default() -> (r: Self)
        ensures
            r@ == Live::empty(),
    {
        TopicSubscribers { topics: TextMap::new() }
    }
}

impl TopicSubscribers {
    /// Adds a subscription that started at the time `connected_at`.
    pub fn add_at(&mut self, info: SessionInfo, tx: StreamSender)
        ensures
            final(self)@ == added(
                old(self)@,
                info@.topic,
                info@.id,
                (LiveView { info: info@, tx }),
            ),
    {
        let ghost before = self@;
        let topic: String = info.topic.clone();
        let session: String = info.id.clone();
        let mut sessions: TextMap<LiveEntry> = match self.topics.take(topic.as_str()) {
            Some(sessions) => sessions,
            None => TextMap::new(),
        };
        sessions.set(session, LiveEntry { info, tx });
        let ghost now = sessions@;
        self.topics.set(topic, sessions);
        proof {
            assert(before.remove(info@.topic).insert(info@.topic, now) =~= before.insert(
                info@.topic,
                now,
            ));
        }
    }

    /// Adds a subscription that starts now.
    pub fn add(
        &mut self,
        topic: &str,
        session: &str,
        tx: StreamSender,
        peer: &str,
        protocol: &'static str,
    )
        ensures
            exists|now: UtcTime|
                now.valid() && final(self)@ == added(
                    old(self)@,
                    topic@,
                    session@,
                    (LiveView {
                        info: SessionView {
                            id: session@,
                            topic: topic@,
                            peer: peer@,
                            connected_at: #[trigger] clock::time_text(now),
                            protocol: protocol@,
                            version: Seq::empty(),
                            host: Seq::empty(),
                        },
                        tx,
                    }),
                ),
    {
        self.add_with_identity(topic, session, tx, peer, protocol, "", "");
        proof {
            reveal_strlit("");
            assert(""@ =~= Seq::<char>::empty());
        }
    }

    /// Adds a subscription that starts now, of a client that told its version
    /// and host.
    pub fn add_with_identity(
        &mut self,
        topic: &str,
        session: &str,
        tx: StreamSender,
        peer: &str,
        protocol: &'static str,
        version: &str,
        host: &str,
    )
        ensures
            exists|now: UtcTime|
                now.valid() && final(self)@ == added(
                    old(self)@,
                    topic@,
                    session@,
                    (LiveView {
                        info: SessionView {
                            id: session@,
                            topic: topic@,
                            peer: peer@,
                            connected_at: #[trigger] clock::time_text(now),
                            protocol: protocol@,
                            version: version@,
                            host: host@,
                        },
                        tx,
                    }),
                ),
    {
        let now: UtcTime = clock::now();
        let info: SessionInfo = SessionInfo {
            id: session.to_string(),
            topic: topic.to_string(),
            peer: peer.to_string(),
            connected_at: clock::text_of(now),
            protocol,
            version: version.to_string(),
            host: host.to_string(),
        };
        proof {
            assert(info@ == (SessionView {
                id: session@,
                topic: topic@,
                peer: peer@,
                connected_at: clock::time_text(now),
                protocol: protocol@,
                version: version@,
                host: host@,
            }));
        }
        self.add_at(info, tx);
    }

    /// Removes a subscription.
    pub fn remove(&mut self, topic: &str, session: &str)
        ensures
            final(self)@ == removed(old(self)@, topic@, session@),
    {
        let ghost before = self@;
        match self.topics.take(topic) {
            None => {
                proof {
                    assert(before.remove(topic@) =~= before);
                }
            },
            Some(mut sessions) => {
                sessions.take(session);
                if sessions.len() > 0 {
                    let ghost rest = sessions@;
                    self.topics.set(topic.to_string(), sessions);
                    proof {
                        assert(before.remove(topic@).insert(topic@, rest) =~= before.insert(
                            topic@,
                            rest,
                        ));
                    }
                }
            },
        }
    }

    /// The number of sessions that subscribe to exactly this filter.
    pub fn count(&self, topic: &str) -> (r: usize)
        ensures
            r == sessions_of(self@, topic@).dom().len(),
    {
        match self.topics.get(topic) {
            Some(sessions) => sessions.len(),
            None => {
                proof {
                    assert(Map::<Seq<char>, LiveView>::empty().dom().len() == 0);
                }
                0
            },
        }
    }

    /// Whether anybody receives what is published to a topic.
    pub fn covers(&self, published_topic: &str) -> (r: bool)
        ensures
            r == covered(self@, published_topic@),
    {
        let n: usize = self.topics.len();
        let ghost keys = self.topics.key_seq();
        let mut i: usize = 0;
        while i < n
            invariant
                i <= n,
                n == keys.len(),
                keys == self.topics.key_seq(),
                forall|k: int| 0 <= k < i ==> !serves(self@, #[trigger] keys[k], published_topic@),
            decreases n - i,
        {
            if self.topics.value_at(i).len() > 0 && topic::filter_matches(
                self.topics.key_at(i).as_str(),
                published_topic,
            ) {
                assert(serves(self@, keys[i as int], published_topic@));
                return true;
            }
            i = i + 1;
        }
        proof {
            assert forall|filter: Seq<char>| !serves(self@, filter, published_topic@) by {
                if serves(self@, filter, published_topic@) {
                    assert(keys.contains(filter));
                    let k = keys.index_of(filter);
                    assert(keys[k] == filter);
                }
            }
        }
        false
    }

    /// Whether a session subscribes to exactly this filter.
    pub fn is_live(&self, topic: &str, consumer_id: &str) -> (r: bool)
        ensures
            r == subscribed(self@, topic@, consumer_id@),
    {
        match self.topics.get(topic) {
            Some(sessions) => sessions.contains(consumer_id),
            None => false,
        }
    }

    /// The filters that somebody subscribes to.
    pub fn topics(&self) -> (r: Vec<String>)
        ensures
            text::ascending(text::texts(r@)),
            forall|t: Seq<char>| #[trigger] text::texts(r@).contains(t) <==> self@.contains_key(t),
    {
        self.topics.sorted_keys()
    }

    /// Unique sessions whose filter matches the published topic (exact, `+`, or `#`).
    pub fn matching_senders(&self, published_topic: &str) -> (r: Vec<(String, StreamSender)>)
        ensures
            are_receivers(self@, published_topic@, sender_views(r@)),
    {
        let seen: TextMap<u64> = self.collect_receivers(published_topic);
        let n: usize = seen.len();
        let ghost keys = seen.key_seq();
        let mut out: Vec<(String, StreamSender)> = Vec::new();
        let mut i: usize = 0;
        while i < n
            invariant
                i <= n,
                n == keys.len(),
                keys == seen.key_seq(),
                out@.len() == i,
                forall|k: int|
                    0 <= k < i ==> (#[trigger] out@[k]).0@ == keys[k] && out@[k].1 == seen@[keys[k]],
            decreases n - i,
        {
            out.push((seen.key_at(i).clone(), *seen.value_at(i)));
            i = i + 1;
        }
        proof {
            let list = sender_views(out@);
            assert(session_ids(list) =~= keys);
            assert forall|s: Seq<char>| #[trigger] session_ids(list).contains(s) <==> receives(
                self@,
                published_topic@,
                s,
            ) by {
                assert(seen@.contains_key(s) <==> keys.contains(s));
            }
            assert forall|k: int| 0 <= k < list.len() implies receives_on(
                self@,
                published_topic@,
                (#[trigger] list[k]).0,
                list[k].1,
            ) by {
                assert(list[k] == (out@[k].0@, out@[k].1));
                assert(keys.contains(keys[k]));
                assert(seen@.contains_key(keys[k]));
            }
        }
        out
    }

    fn collect_receivers(&self, published_topic: &str) -> (seen: TextMap<u64>)
        ensures
            forall|s: Seq<char>| #[trigger]
                seen@.contains_key(s) <==> receives(self@, published_topic@, s),
            forall|s: Seq<char>| #[trigger]
                seen@.contains_key(s) ==> receives_on(self@, published_topic@, s, seen@[s]),
    {
        let mut seen: TextMap<u64> = TextMap::new();
        let n: usize = self.topics.len();
        let ghost keys = self.topics.key_seq();
        let ghost live = self@;
        let ghost name = published_topic@;
        let mut i: usize = 0;
        while i < n
            invariant
                i <= n,
                n == keys.len(),
                keys == self.topics.key_seq(),
                live == self@,
                name == published_topic@,
                forall|s: Seq<char>| #[trigger]
                    seen@.contains_key(s) <==> exists|k: int|
                        0 <= k < i && receives_by(live, #[trigger] keys[k], name, s),
                forall|s: Seq<char>| #[trigger]
                    seen@.contains_key(s) ==> receives_on(live, name, s, seen@[s]),
            decreases n - i,
        {
            let filter: &String = self.topics.key_at(i);
            if topic::filter_matches(filter.as_str(), published_topic) {
                let sessions: &TextMap<LiveEntry> = self.topics.value_at(i);
                let ghost before = seen@;
                let m: usize = sessions.len();
                let ghost ids = sessions.key_seq();
                let mut j: usize = 0;
                while j < m
                    invariant
                        j <= m,
                        i < n,
                        n == keys.len(),
                        m == ids.len(),
                        ids == sessions.key_seq(),
                        live.contains_key(keys[i as int]),
                        live[keys[i as int]] == sessions@,
                        topic::selects(keys[i as int], name),
                        forall|s: Seq<char>| #[trigger]
                            seen@.contains_key(s) <==> (before.contains_key(s) || ids.take(
                                j as int,
                            ).contains(s)),
                        forall|s: Seq<char>| #[trigger]
                            seen@.contains_key(s) ==> receives_on(live, name, s, seen@[s]),
                    decreases m - j,
                {
                    let id: &String = sessions.key_at(j);
                    let ghost then = seen@;
                    proof {
                        text::lemma_take_grows(ids, j as int);
                    }
                    if !seen.contains(id.as_str()) {
                        let tx: u64 = sessions.value_at(j).tx;
                        seen.set(id.clone(), tx);
                        proof {
                            assert(receives_by(live, keys[i as int], name, id@));
                            assert(live[keys[i as int]][id@].tx == tx);
                            assert forall|s: Seq<char>| #[trigger] seen@.contains_key(s) implies
                                receives_on(live, name, s, seen@[s]) by {
                                if s != id@ {
                                    assert(then.contains_key(s));
                                }
                            }
                        }
                    }
                    j = j + 1;
                }
                proof {
                    assert(ids.take(m as int) =~= ids);
                    assert forall|s: Seq<char>| #[trigger] seen@.contains_key(s) <==> exists|k: int|
                        0 <= k < i + 1 && receives_by(live, #[trigger] keys[k], name, s) by {
                        if before.contains_key(s) {
                            let k = choose|k: int|
                                0 <= k < i && receives_by(live, #[trigger] keys[k], name, s);
                            assert(receives_by(live, keys[k], name, s));
                        }
                        if ids.contains(s) {
                            assert(receives_by(live, keys[i as int], name, s));
                        }
                        if exists|k: int|
                            0 <= k < i + 1 && receives_by(live, #[trigger] keys[k], name, s) {
                            let k = choose|k: int|
                                0 <= k < i + 1 && receives_by(live, #[trigger] keys[k], name, s);
                            if k < i {
                                assert(before.contains_key(s));
                            }
                        }
                    }
                }
            } else {
                proof {
                    assert forall|s: Seq<char>| #[trigger] seen@.contains_key(s) <==> exists|k: int|
                        0 <= k < i + 1 && receives_by(live, #[trigger] keys[k], name, s) by {
                        assert(!receives_by(live, keys[i as int], name, s));
                        if exists|k: int|
                            0 <= k < i + 1 && receives_by(live, #[trigger] keys[k], name, s) {
                            let k = choose|k: int|
                                0 <= k < i + 1 && receives_by(live, #[trigger] keys[k], name, s);
                            assert(k < i);
                        }
                    }
                }
            }
            i = i + 1;
        }
        proof {
            assert forall|s: Seq<char>| #[trigger] seen@.contains_key(s) <==> receives(
                live,
                name,
                s,
            ) by {
                if receives(live, name, s) {
                    let filter = choose|filter: Seq<char>| receives_by(live, filter, name, s);
                    assert(keys.contains(filter));
                    let k = keys.index_of(filter);
                    assert(receives_by(live, keys[k], name, s));
                }
            }
        }
        seen
    }

    /// The number of sessions that receive what is published to a topic.
    pub fn matching_count(&self, published_topic: &str) -> (r: usize)
        ensures
            r == receivers(self@, published_topic@).len(),
    {
        let senders: Vec<(String, StreamSender)> = self.matching_senders(published_topic);
        proof {
            let ids = session_ids(sender_views(senders@));
            ids.unique_seq_to_set();
            assert(ids.to_set() =~= receivers(self@, published_topic@)) by {
                assert forall|s: Seq<char>| ids.to_set().contains(s) <==> receivers(
                    self@,
                    published_topic@,
                ).contains(s) by {
                    assert(ids.contains(s) <==> receives(self@, published_topic@, s));
                }
            }
        }
        senders.len()
    }

    /// Every live subscription, ordered by filter and session.
    pub fn sessions(&self) -> (r: Vec<SessionInfo>)
        ensures
            exists|keys: Seq<(Seq<char>, Seq<char>)>| #[trigger]
                are_sessions(self@, keys, session_views(r@)),
    {
        let names: Vec<String> = self.topics.sorted_keys();
        let ghost filters = text::texts(names@);
        let ghost live = self@;
        let ghost mut keys: Seq<(Seq<char>, Seq<char>)> = Seq::empty();
        let mut out: Vec<SessionInfo> = Vec::new();
        let mut i: usize = 0;
        while i < names.len()
            invariant
                i <= names@.len(),
                live == self@,
                filters == text::texts(names@),
                text::ascending(filters),
                forall|k: Seq<char>| #[trigger] filters.contains(k) <==> live.contains_key(k),
                are_first_sessions(live, keys, session_views(out@)),
                forall|t: Seq<char>, s: Seq<char>| #[trigger]
                    keys.contains((t, s)) <==> subscribed(live, t, s) && filters.take(
                        i as int,
                    ).contains(t),
            decreases names.len() - i,
        {
            proof {
                text::lemma_take_grows(filters, i as int);
                assert(filters.contains(filters[i as int]));
            }
            match self.topics.get(names[i].as_str()) {
                Some(sessions) => {
                    let ids: Vec<String> = sessions.sorted_keys();
                    let ghost filter = filters[i as int];
                    let ghost members = text::texts(ids@);
                    proof {
                        assert(filter == names@[i as int]@);
                        assert(members.take(0) =~= Seq::<Seq<char>>::empty());
                    }
                    let mut j: usize = 0;
                    while j < ids.len()
                        invariant
                            j <= ids@.len(),
                            i < names@.len(),
                            filters == text::texts(names@),
                            text::ascending(filters),
                            filter == filters[i as int],
                            live.contains_key(filter),
                            live[filter] == sessions@,
                            members == text::texts(ids@),
                            text::ascending(members),
                            forall|k: Seq<char>| #[trigger]
                                members.contains(k) <==> sessions@.contains_key(k),
                            are_first_sessions(live, keys, session_views(out@)),
                            forall|t: Seq<char>, s: Seq<char>| #[trigger]
                                keys.contains((t, s)) <==> subscribed(live, t, s) && (filters.take(
                                    i as int,
                                ).contains(t) || (t == filter && members.take(j as int).contains(
                                    s,
                                ))),
                        decreases ids.len() - j,
                    {
                        proof {
                            text::lemma_take_grows(members, j as int);
                            assert(members.contains(members[j as int]));
                            assert(members[j as int] == ids@[j as int]@);
                        }
                        match sessions.get(ids[j].as_str()) {
                            Some(entry) => {
                                let ghost key = (filter, members[j as int]);
                                proof {
                                    lemma_later_session(live, keys, filters, i as int, members, j as int);
                                    lemma_one_more(live, keys, session_views(out@), key);
                                }
                                let ghost then = keys;
                                let ghost listed = session_views(out@);
                                out.push(entry.info.clone());
                                proof {
                                    keys = keys.push(key);
                                    assert(session_views(out@) =~= listed.push(
                                        live[key.0][key.1].info,
                                    ));
                                    assert forall|t: Seq<char>, s: Seq<char>| #[trigger]
                                        keys.contains((t, s)) <==> subscribed(live, t, s) && (
                                    filters.take(i as int).contains(t) || (t == filter
                                        && members.take(j + 1).contains(s))) by {
                                        lemma_push_contains(then, key, (t, s));
                                    }
                                }
                            },
                            None => {
                                assert(false);
                            },
                        }
                        j = j + 1;
                    }
                    proof {
                        assert(members.take(ids@.len() as int) =~= members);
                        assert forall|t: Seq<char>, s: Seq<char>| #[trigger]
                            keys.contains((t, s)) <==> subscribed(live, t, s) && filters.take(
                            i + 1,
                        ).contains(t) by {
                            assert(members.contains(s) <==> sessions@.contains_key(s));
                        }
                    }
                },
                None => {
                    assert(false);
                },
            }
            i = i + 1;
        }
        proof {
            assert(filters.take(names@.len() as int) =~= filters);
            assert(are_sessions(live, keys, session_views(out@)));
        }
        out
    }
}

/// What an acknowledgement says.
pub struct AckDecision {
    pub success: bool,
    pub error: String,
}

/// The acknowledgements that are waited for: the message under each lease.
pub struct InflightAcks {
    pending: TextMap<String>,
}

impl View for InflightAcks {
    type V = Map<Seq<char>, Seq<char>>;

    closed spec fn view(&self) -> Map<Seq<char>, Seq<char>> {
        self.pending@
    }
}

/// Whether an acknowledgement of a message under a lease is waited for.
pub open spec fn awaited(
    pending: Map<Seq<char>, Seq<char>>,
    message_id: Seq<char>,
    lease: Seq<char>,
) -> bool {
    pending.contains_key(lease) && pending[lease] == message_id
}

/// What is waited for after an acknowledgement.
pub open spec fn acknowledged(
    pending: Map<Seq<char>, Seq<char>>,
    message_id: Seq<char>,
    lease: Seq<char>,
) -> Map<Seq<char>, Seq<char>> {
    if awaited(pending, message_id, lease) {
        pending.remove(lease)
    } else {
        pending
    }
}

impl Default for InflightAcks {
    fn default() -> (r: Self)
        ensures
            r@ == Map::<Seq<char>, Seq<char>>::empty(),
    {
        InflightAcks { pending: TextMap::new() }
    }
}

impl InflightAcks {
    /// Waits for the acknowledgement of a message under a lease.
    pub fn register(&mut self, message_id: String, lease: String)
        ensures
            final(self)@ == old(self)@.insert(lease@, message_id@),
    {
        self.pending.set(lease, message_id);
    }

    /// Takes an acknowledgement. Whoever waits under its lease is to be told the
    /// decision.
    pub fn complete(&mut self, message_id: &str, lease: &str, success: bool, error: String) -> (r:
        Option<AckDecision>)
        ensures
            final(self)@ == acknowledged(old(self)@, message_id@, lease@),
            match r {
                Some(decision) => awaited(old(self)@, message_id@, lease@) && decision.success
                    == success && decision.error@ == error@,
                None => !awaited(old(self)@, message_id@, lease@),
            },
    {
        let expected: bool = match self.pending.get(lease) {
            Some(pending) => text::text_eq(pending.as_str(), message_id),
            None => false,
        };
        if !expected {
            return None;
        }
        self.pending.take(lease);
        Some(AckDecision { success, error })
    }

    /// Stops waiting for an acknowledgement.
    pub fn cancel(&mut self, lease: &str)
        ensures
            final(self)@ == old(self)@.remove(lease@),
    {
        self.pending.take(lease);
    }
}

/// Ordered subscriptions, each once.
spec fn are_first_sessions(
    live: Live,
    keys: Seq<(Seq<char>, Seq<char>)>,
    list: Seq<SessionView>,
) -> bool {
    &&& keys.len() == list.len()
    &&& forall|i: int, j: int|
        0 <= i < j < keys.len() ==> key_before(#[trigger] keys[i], #[trigger] keys[j])
    &&& forall|i: int|
        0 <= i < list.len() ==> #[trigger] list[i] == live[keys[i].0][keys[i].1].info
}

proof fn lemma_push_contains<A>(list: Seq<A>, last: A, a: A)
    ensures
        list.push(last).contains(a) <==> list.contains(a) || a == last,
{
    assert(list.push(last)[list.len() as int] == last);
    if list.contains(a) {
        assert(list.push(last)[list.index_of(a)] == a);
    }
    if list.push(last).contains(a) && a != last {
        assert(list[list.push(last).index_of(a)] == a);
    }
}

proof fn lemma_one_more(
    live: Live,
    keys: Seq<(Seq<char>, Seq<char>)>,
    list: Seq<SessionView>,
    key: (Seq<char>, Seq<char>),
)
    requires
        are_first_sessions(live, keys, list),
        forall|i: int| 0 <= i < keys.len() ==> key_before(#[trigger] keys[i], key),
    ensures
        are_first_sessions(live, keys.push(key), list.push(live[key.0][key.1].info)),
{
}

proof fn lemma_later_session(
    live: Live,
    keys: Seq<(Seq<char>, Seq<char>)>,
    filters: Seq<Seq<char>>,
    i: int,
    members: Seq<Seq<char>>,
    j: int,
)
    requires
        0 <= i < filters.len(),
        0 <= j < members.len(),
        text::ascending(filters),
        text::ascending(members),
        forall|t: Seq<char>, s: Seq<char>| #[trigger]
            keys.contains((t, s)) <==> subscribed(live, t, s) && (filters.take(i).contains(t) || (t
                == filters[i] && members.take(j).contains(s))),
    ensures
        forall|k: int|
            0 <= k < keys.len() ==> key_before(#[trigger] keys[k], (filters[i], members[j])),
{
    assert forall|k: int| 0 <= k < keys.len() implies key_before(
        #[trigger] keys[k],
        (filters[i], members[j]),
    ) by {
        let (t, s) = keys[k];
        assert(keys.contains((t, s)));
        if filters.take(i).contains(t) {
            let x = filters.take(i).index_of(t);
            assert(filters[x] == t);
        } else {
            let x = members.take(j).index_of(s);
            assert(members[x] == s);
        }
    }
}

/// A subscription that was added is live, and what else was live stays so.
pub proof fn law_an_added_subscription_is_live(
    live: Live,
    topic: Seq<char>,
    session: Seq<char>,
    entry: LiveView,
)
    ensures
        subscribed(added(live, topic, session, entry), topic, session),
        forall|t: Seq<char>, s: Seq<char>|
            (t, s) != (topic, session) ==> (#[trigger] subscribed(
                added(live, topic, session, entry),
                t,
                s,
            ) <==> subscribed(live, t, s)),
{
}

/// A subscription that was removed is not live, and what else was live stays so.
pub proof fn law_a_removed_subscription_is_gone(live: Live, topic: Seq<char>, session: Seq<char>)
    requires
        forall|t: Seq<char>| #[trigger] live.contains_key(t) ==> live[t].dom().finite(),
    ensures
        !subscribed(removed(live, topic, session), topic, session),
        forall|t: Seq<char>, s: Seq<char>|
            (t, s) != (topic, session) ==> (#[trigger] subscribed(
                removed(live, topic, session),
                t,
                s,
            ) <==> subscribed(live, t, s)),
{
    if live.contains_key(topic) {
        let rest = live[topic].remove(session);
        if rest.dom().len() == 0 {
            assert(rest.dom() =~= Set::<Seq<char>>::empty());
            assert forall|s: Seq<char>| s != session implies !subscribed(live, topic, s) by {
                assert(!rest.dom().contains(s));
            }
        }
    }
}

/// A session that subscribes to a filter receives what is published to the
/// topics that the filter selects, and the topic is covered.
pub proof fn law_a_subscriber_receives(
    live: Live,
    filter: Seq<char>,
    topic: Seq<char>,
    session: Seq<char>,
)
    requires
        live.contains_key(filter),
        live[filter].dom().finite(),
        subscribed(live, filter, session),
        topic::selects(filter, topic),
    ensures
        receives(live, topic, session),
        covered(live, topic),
{
    assert(receives_by(live, filter, topic, session));
    if live[filter].dom().len() == 0 {
        assert(live[filter].dom() =~= Set::<Seq<char>>::empty());
        assert(live[filter].dom().contains(session));
    }
    assert(serves(live, filter, topic));
}

/// An acknowledgement counts once: after it, nobody waits under its lease.
pub proof fn law_an_acknowledgement_counts_once(
    pending: Map<Seq<char>, Seq<char>>,
    message_id: Seq<char>,
    lease: Seq<char>,
)
    ensures
        !awaited(acknowledged(pending, message_id, lease), message_id, lease),
        forall|other: Seq<char>|
            other != lease ==> (#[trigger] acknowledged(pending, message_id, lease).contains_key(
                other,
            ) <==> pending.contains_key(other)),
{
}

/// An acknowledgement of another message than the leased one changes nothing.
pub proof fn law_a_foreign_acknowledgement_changes_nothing(
    pending: Map<Seq<char>, Seq<char>>,
    message_id: Seq<char>,
    lease: Seq<char>,
)
    requires
        pending.contains_key(lease) ==> pending[lease] != message_id,
    ensures
        acknowledged(pending, message_id, lease) == pending,
{
}

/// A topic is covered exactly where a session receives what is published to it.
pub proof fn law_a_covered_topic_has_a_receiver(live: Live, topic: Seq<char>)
    requires
        forall|t: Seq<char>| #[trigger] live.contains_key(t) ==> live[t].dom().finite(),
    ensures
        covered(live, topic) <==> exists|session: Seq<char>| #[trigger]
            receives(live, topic, session),
{
    if covered(live, topic) {
        let filter = choose|filter: Seq<char>| serves(live, filter, topic);
        let session = live[filter].dom().choose();
        assert(live[filter].dom().contains(session)) by {
            if live[filter].dom() =~= Set::<Seq<char>>::empty() {
            }
        }
        assert(receives_by(live, filter, topic, session));
        assert(receives(live, topic, session));
    }
    if exists|session: Seq<char>| #[trigger] receives(live, topic, session) {
        let session = choose|session: Seq<char>| #[trigger] receives(live, topic, session);
        let filter = choose|filter: Seq<char>| receives_by(live, filter, topic, session);
        law_a_subscriber_receives(live, filter, topic, session);
    }
}

/// Who receives a topic subscribes to a filter that selects it, and is reached
/// on the stream of that subscription.
pub proof fn law_a_receiver_subscribes(
    live: Live,
    topic: Seq<char>,
    session: Seq<char>,
    tx: StreamSender,
)
    ensures
        receives(live, topic, session) <==> exists|filter: Seq<char>| #[trigger]
            subscribed(live, filter, session) && topic::selects(filter, topic),
        receives_on(live, topic, session, tx) <==> exists|filter: Seq<char>| #[trigger]
            subscribed(live, filter, session) && topic::selects(filter, topic)
                && live[filter][session].tx == tx,
{
    if exists|filter: Seq<char>| #[trigger]
        subscribed(live, filter, session) && topic::selects(filter, topic) {
        let filter = choose|filter: Seq<char>| #[trigger]
            subscribed(live, filter, session) && topic::selects(filter, topic);
        assert(receives_by(live, filter, topic, session));
    }
    if exists|filter: Seq<char>| #[trigger]
        subscribed(live, filter, session) && topic::selects(filter, topic)
            && live[filter][session].tx == tx {
        let filter = choose|filter: Seq<char>| #[trigger]
            subscribed(live, filter, session) && topic::selects(filter, topic)
                && live[filter][session].tx == tx;
        assert(receives_by(live, filter, topic, session));
    }
    if receives(live, topic, session) {
        let filter = choose|filter: Seq<char>| receives_by(live, filter, topic, session);
        assert(subscribed(live, filter, session));
    }
    if receives_on(live, topic, session, tx) {
        let filter = choose|filter: Seq<char>|
            #[trigger] receives_by(live, filter, topic, session) && live[filter][session].tx == tx;
        assert(subscribed(live, filter, session));
    }
}

/// The last session that leaves a filter takes the filter along, and an added
/// session is found with what it said of itself.
pub proof fn law_no_filter_is_left_without_a_session(
    live: Live,
    topic: Seq<char>,
    session: Seq<char>,
    entry: LiveView,
)
    requires
        forall|t: Seq<char>| #[trigger]
            live.contains_key(t) ==> live[t].dom().finite() && exists|s: Seq<char>| #[trigger]
                live[t].contains_key(s),
    ensures
        forall|t: Seq<char>| #[trigger]
            removed(live, topic, session).contains_key(t) ==> exists|s: Seq<char>| #[trigger]
                removed(live, topic, session)[t].contains_key(s),
        added(live, topic, session, entry)[topic][session] == entry,
        forall|t: Seq<char>, s: Seq<char>|
            (t, s) != (topic, session) && subscribed(live, t, s) ==> #[trigger] added(
                live,
                topic,
                session,
                entry,
            )[t][s] == live[t][s],
        forall|t: Seq<char>, s: Seq<char>|
            (t, s) != (topic, session) && subscribed(live, t, s) ==> #[trigger] removed(
                live,
                topic,
                session,
            )[t][s] == live[t][s],
{
    let after = removed(live, topic, session);
    assert forall|t: Seq<char>| #[trigger] after.contains_key(t) implies exists|s: Seq<char>|
        #[trigger] after[t].contains_key(s) by {
        if t == topic && live.contains_key(topic) {
            let rest = live[topic].remove(session);
            let s = rest.dom().choose();
            assert(rest.dom().contains(s)) by {
                if rest.dom() =~= Set::<Seq<char>>::empty() {
                }
            }
            assert(after[t].contains_key(s));
        } else {
            assert(live.contains_key(t));
            let s = choose|s: Seq<char>| #[trigger] live[t].contains_key(s);
            assert(after[t].contains_key(s));
        }
    }
    assert forall|t: Seq<char>, s: Seq<char>|
        (t, s) != (topic, session) && subscribed(live, t, s) implies #[trigger] after[t][s]
        == live[t][s] by {
        if t == topic {
            let rest = live[topic].remove(session);
            assert(rest.contains_key(s));
            if rest.dom().len() == 0 {
                assert(rest.dom() =~= Set::<Seq<char>>::empty());
            }
        }
    }
}

/// Every live session is listed with what it said of itself, nothing else is,
/// and the list goes by filter and then by session.
pub proof fn law_every_live_session_is_listed(
    live: Live,
    keys: Seq<(Seq<char>, Seq<char>)>,
    list: Seq<SessionView>,
)
    requires
        are_sessions(live, keys, list),
    ensures
        forall|t: Seq<char>, s: Seq<char>| #[trigger]
            subscribed(live, t, s) ==> list.contains(live[t][s].info),
        forall|info: SessionView| #[trigger]
            list.contains(info) ==> exists|t: Seq<char>, s: Seq<char>| #[trigger]
                subscribed(live, t, s) && live[t][s].info == info,
        forall|i: int, j: int|
            0 <= i < j < keys.len() ==> {
                ||| text::text_less((#[trigger] keys[i]).0, (#[trigger] keys[j]).0)
                ||| keys[i].0 == keys[j].0 && text::text_less(keys[i].1, keys[j].1)
            },
{
    assert forall|t: Seq<char>, s: Seq<char>| #[trigger]
        subscribed(live, t, s) implies list.contains(live[t][s].info) by {
        assert(keys.contains((t, s)));
        let i = keys.index_of((t, s));
        assert(list[i] == live[t][s].info);
    }
    assert forall|info: SessionView| #[trigger] list.contains(info) implies exists|
        t: Seq<char>,
        s: Seq<char>,
    | #[trigger] subscribed(live, t, s) && live[t][s].info == info by {
        let i = list.index_of(info);
        assert(list[i] == live[keys[i].0][keys[i].1].info);
        assert(keys.contains(keys[i]));
        assert(keys[i] == (keys[i].0, keys[i].1));
        assert(subscribed(live, keys[i].0, keys[i].1));
    }
}

/// An acknowledgement is waited for under its lease and for its own message, and
/// taking it leaves every other one in place.
pub proof fn law_an_acknowledgement_belongs_to_its_message(
    pending: Map<Seq<char>, Seq<char>>,
    message_id: Seq<char>,
    lease: Seq<char>,
)
    ensures
        awaited(pending.insert(lease, message_id), message_id, lease),
        forall|id: Seq<char>|
            id != message_id ==> !#[trigger] awaited(pending.insert(lease, message_id), id, lease),
        acknowledged(pending.insert(lease, message_id), message_id, lease) == pending.remove(lease),
{
    assert(pending.insert(lease, message_id).remove(lease) =~= pending.remove(lease));
}

} // verus!
