//! MQTT 3.1.1: packets, sessions and the connected clients.
use vstd::prelude::*;
use vstd::string::*;

use crate::clock;
use crate::clock::UtcTime;
use crate::table::TextMap;
use crate::text;

pub mod codec;
pub mod inflight;
pub mod session;

verus! {

/// The number of a session, by which it can be told to end.
pub type SessionToken = u64;

/// A connected MQTT client.
#[derive(Debug)]
pub struct MqttClientInfo {
    pub client_id: String,
    pub peer: String,
    pub transport: &'static str,
    pub connected_at: String,
    pub version: String,
}

#[verifier::ext_equal]
pub struct MqttClientView {
    pub client_id: Seq<char>,
    pub peer: Seq<char>,
    pub transport: Seq<char>,
    pub connected_at: Seq<char>,
    pub version: Seq<char>,
}

impl View for MqttClientInfo {
    type V = MqttClientView;

    open spec fn view(&self) -> MqttClientView {
        MqttClientView {
            client_id: self.client_id@,
            peer: self.peer@,
            transport: self.transport@,
            connected_at: self.connected_at@,
            version: self.version@,
        }
    }
}

impl Clone for MqttClientInfo {
    fn clone(&self) -> (r: Self)
        ensures
            r@ == self@,
    {
        MqttClientInfo {
            client_id: self.client_id.clone(),
            peer: self.peer.clone(),
            transport: self.transport,
            connected_at: self.connected_at.clone(),
            version: self.version.clone(),
        }
    }
}

pub struct MqttEntry {
    pub info: MqttClientInfo,
    pub token: SessionToken,
}

#[verifier::ext_equal]
pub struct MqttEntryView {
    pub info: MqttClientView,
    pub token: SessionToken,
}

impl View for MqttEntry {
    type V = MqttEntryView;

    open spec fn view(&self) -> MqttEntryView {
        MqttEntryView { info: self.info@, token: self.token }
    }
}

/// The connected MQTT clients, by client id. A client id has one session.
pub struct ClientRegistry {
    clients: TextMap<MqttEntry>,
}

impl View for ClientRegistry {
    type V = Map<Seq<char>, MqttEntryView>;

    closed spec fn view(&self) -> Map<Seq<char>, MqttEntryView> {
        self.clients@
    }
}

/// The session of a client id.
pub open spec fn session_of(
    clients: Map<Seq<char>, MqttEntryView>,
    client_id: Seq<char>,
) -> Option<SessionToken> {
    if clients.contains_key(client_id) {
        Some(clients[client_id].token)
    } else {
        None
    }
}

/// The clients after a session ended: its client leaves, unless it has another
/// session by then.
pub open spec fn session_ended(
    clients: Map<Seq<char>, MqttEntryView>,
    client_id: Seq<char>,
    token: SessionToken,
) -> Map<Seq<char>, MqttEntryView> {
    if session_of(clients, client_id) == Some(token) {
        clients.remove(client_id)
    } else {
        clients
    }
}

/// Every client once, by client id.
pub open spec fn are_clients(
    clients: Map<Seq<char>, MqttEntryView>,
    ids: Seq<Seq<char>>,
    list: Seq<MqttClientInfo>,
) -> bool {
    &&& ids.len() == list.len()
    &&& text::ascending(ids)
    &&& forall|id: Seq<char>| #[trigger] ids.contains(id) <==> clients.contains_key(id)
    &&& forall|i: int| 0 <= i < list.len() ==> (#[trigger] list[i])@ == clients[ids[i]].info
}

impl Default for ClientRegistry {
    fn default() -> (r: Self)
        ensures
            r@ == Map::<Seq<char>, MqttEntryView>::empty(),
    {
        ClientRegistry { clients: TextMap::new() }
    }
}

impl ClientRegistry {
    /// Gives a client id a session, of which nothing else is known. Returns the
    /// session that the client id had.
    pub fn insert(&mut self, client_id: String, token: SessionToken) -> (r: Option<SessionToken>)
        ensures
            r == session_of(old(self)@, client_id@),
            final(self)@ == old(self)@.insert(
                client_id@,
                (MqttEntryView {
                    info: MqttClientView {
                        client_id: client_id@,
                        peer: Seq::empty(),
                        transport: "mqtt"@,
                        connected_at: Seq::empty(),
                        version: Seq::empty(),
                    },
                    token,
                }),
            ),
    {
        let info: MqttClientInfo = MqttClientInfo {
            client_id,
            peer: String::new(),
            transport: "mqtt",
            connected_at: String::new(),
            version: String::new(),
        };
        proof {
            assert(info@.peer =~= Seq::<char>::empty());
            assert(info@.connected_at =~= Seq::<char>::empty());
            assert(info@.version =~= Seq::<char>::empty());
        }
        self.connect_at(info, token)
    }

    /// Gives a client a session. Returns the session that its client id had.
    pub fn connect_at(&mut self, info: MqttClientInfo, token: SessionToken) -> (r: Option<
        SessionToken,
    >)
        ensures
            r == session_of(old(self)@, info@.client_id),
            final(self)@ == old(self)@.insert(
                info@.client_id,
                (MqttEntryView { info: info@, token }),
            ),
    {
        let previous: Option<SessionToken> = match self.clients.get(info.client_id.as_str()) {
            Some(entry) => Some(entry.token),
            None => None,
        };
        self.clients.set(info.client_id.clone(), MqttEntry { info, token });
        previous
    }

    /// Gives a client a session that starts now. Returns the session that its
    /// client id had.
    pub fn connect(
        &mut self,
        client_id: String,
        token: SessionToken,
        peer: String,
        transport: &'static str,
        version: String,
    ) -> (r: Option<SessionToken>)
        ensures
            r == session_of(old(self)@, client_id@),
            exists|now: UtcTime|
                now.valid() && final(self)@ == old(self)@.insert(
                    client_id@,
                    (MqttEntryView {
                        info: MqttClientView {
                            client_id: client_id@,
                            peer: peer@,
                            transport: transport@,
                            connected_at: #[trigger] clock::time_text(now),
                            version: version@,
                        },
                        token,
                    }),
                ),
    {
        let now: UtcTime = clock::now();
        let connected_at: String = clock::text_of(now);
        self.connect_at(
            MqttClientInfo { client_id, peer, transport, connected_at, version },
            token,
        )
    }

    /// Removes a client whose session ended, unless it has another session.
    pub fn remove_if(&mut self, client_id: &str, token: SessionToken)
        ensures
            final(self)@ == session_ended(old(self)@, client_id@, token),
    {
        let same: bool = match self.clients.get(client_id) {
            Some(entry) => entry.token == token,
            None => false,
        };
        if same {
            self.clients.take(client_id);
        }
    }

    /// The connected clients, by client id.
    pub fn clients(&self) -> (r: Vec<MqttClientInfo>)
        ensures
            exists|ids: Seq<Seq<char>>| #[trigger] are_clients(self@, ids, r@),
    {
        let names: Vec<String> = self.clients.sorted_keys();
        let ghost ids = text::texts(names@);
        let mut out: Vec<MqttClientInfo> = Vec::new();
        let mut i: usize = 0;
        while i < names.len()
            invariant
                i <= names@.len(),
                out@.len() == i,
                ids == text::texts(names@),
                forall|id: Seq<char>| #[trigger] ids.contains(id) <==> self@.contains_key(id),
                forall|k: int| 0 <= k < i ==> (#[trigger] out@[k])@ == self@[ids[k]].info,
            decreases names.len() - i,
        {
            assert(ids.contains(ids[i as int]));
            match self.clients.get(names[i].as_str()) {
                Some(entry) => out.push(entry.info.clone()),
                None => {
                    assert(false);
                },
            }
            i = i + 1;
        }
        proof {
            assert(are_clients(self@, ids, out@));
        }
        out
    }
}

/// A session that was replaced takes nothing away when it ends.
pub proof fn law_a_replaced_session_takes_nothing_away(
    clients: Map<Seq<char>, MqttEntryView>,
    entry: MqttEntryView,
    token: SessionToken,
)
    requires
        entry.token != token,
    ensures
        session_ended(clients.insert(entry.info.client_id, entry), entry.info.client_id, token)
            == clients.insert(entry.info.client_id, entry),
{
}

/// A session that ends is taken off the list where it is the one listed there;
/// the sessions of other clients stay.
pub proof fn law_a_session_that_ends_is_taken_off(
    clients: Map<Seq<char>, MqttEntryView>,
    client_id: Seq<char>,
    token: SessionToken,
    other: Seq<char>,
)
    requires
        other != client_id,
    ensures
        clients.contains_key(client_id) && clients[client_id].token == token ==> !session_ended(
            clients,
            client_id,
            token,
        ).contains_key(client_id),
        clients.contains_key(client_id) && clients[client_id].token != token ==> session_ended(
            clients,
            client_id,
            token,
        ) == clients,
        session_ended(clients, client_id, token).contains_key(other) == clients.contains_key(other),
        clients.contains_key(other) ==> session_ended(clients, client_id, token)[other]
            == clients[other],
        session_of(clients, client_id) is Some <==> clients.contains_key(client_id),
        clients.contains_key(client_id) ==> session_of(clients, client_id) == Some(
            clients[client_id].token,
        ),
{
}

/// Every client is listed once, by its name, with what it said of itself.
pub proof fn law_every_client_is_listed_by_name(
    clients: Map<Seq<char>, MqttEntryView>,
    ids: Seq<Seq<char>>,
    list: Seq<MqttClientInfo>,
    id: Seq<char>,
)
    requires
        are_clients(clients, ids, list),
    ensures
        clients.contains_key(id) ==> exists|i: int|
            0 <= i < list.len() && (#[trigger] list[i])@ == clients[id].info && ids[i] == id,
        forall|i: int|
            0 <= i < list.len() ==> clients.contains_key(#[trigger] ids[i]) && list[i]@
                == clients[ids[i]].info,
        forall|i: int, j: int|
            0 <= i < j < ids.len() ==> text::text_less(#[trigger] ids[i], #[trigger] ids[j]),
{
    if clients.contains_key(id) {
        assert(ids.contains(id));
        let i = ids.index_of(id);
        assert(list[i]@ == clients[id].info);
    }
    assert forall|i: int| 0 <= i < list.len() implies clients.contains_key(#[trigger] ids[i])
        && list[i]@ == clients[ids[i]].info by {
        assert(ids.contains(ids[i]));
    }
}

} // verus!
