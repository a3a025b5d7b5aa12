//! The connected gRPC clients.
use vstd::prelude::*;
use vstd::string::*;

use crate::clock;
use crate::clock::UtcTime;
use crate::order;
use crate::order::Order;
use crate::text;

verus! {

/// A connected gRPC client.
#[derive(Debug)]
pub struct GrpcClientInfo {
    pub peer: String,
    pub connected_at: String,
    pub version: String,
    pub host: String,
}

#[verifier::ext_equal]
pub struct GrpcClientView {
    pub peer: Seq<char>,
    pub connected_at: Seq<char>,
    pub version: Seq<char>,
    pub host: Seq<char>,
}

impl View for GrpcClientInfo {
    type V = GrpcClientView;

    open spec fn view(&self) -> GrpcClientView {
        GrpcClientView {
            peer: self.peer@,
            connected_at: self.connected_at@,
            version: self.version@,
            host: self.host@,
        }
    }
}

impl Clone for GrpcClientInfo {
    fn clone(&self) -> (r: Self)
        ensures
            r@ == self@,
    {
        GrpcClientInfo {
            peer: self.peer.clone(),
            connected_at: self.connected_at.clone(),
            version: self.version.clone(),
            host: self.host.clone(),
        }
    }
}

struct GrpcEntry {
    id: u64,
    info: GrpcClientInfo,
}

impl View for GrpcEntry {
    type V = (u64, GrpcClientView);

    closed spec fn view(&self) -> (u64, GrpcClientView) {
        (self.id, self.info@)
    }
}

/// The connected gRPC clients, each under the number of its connection.
pub struct GrpcClientRegistry {
    last_id: u64,
    clients: Vec<GrpcEntry>,
}

/// The number given out last, and the clients in the order in which they came.
#[verifier::ext_equal]
pub struct GrpcRegistryView {
    pub last_id: u64,
    pub clients: Seq<(u64, GrpcClientView)>,
}

impl View for GrpcClientRegistry {
    type V = GrpcRegistryView;

    closed spec fn view(&self) -> GrpcRegistryView {
        GrpcRegistryView { last_id: self.last_id, clients: order::views(self.clients@) }
    }
}

/// The clients without the one under a number.
pub open spec fn without(clients: Seq<(u64, GrpcClientView)>, id: u64) -> Seq<
    (u64, GrpcClientView),
>
    decreases clients.len(),
{
    if clients.len() == 0 {
        clients
    } else if clients.last().0 == id {
        without(clients.drop_last(), id)
    } else {
        without(clients.drop_last(), id).push(clients.last())
    }
}

/// The number after `id`; after the largest comes zero.
pub open spec fn next_id(id: u64) -> u64 {
    if id == u64::MAX {
        0
    } else {
        (id + 1) as u64
    }
}

/// A registry with one more client, who told nothing yet.
pub open spec fn connected(
    registry: GrpcRegistryView,
    peer: Seq<char>,
    now: Seq<char>,
) -> GrpcRegistryView {
    let id = next_id(registry.last_id);
    GrpcRegistryView {
        last_id: id,
        clients: without(registry.clients, id).push(
            (
                id,
                GrpcClientView {
                    peer,
                    connected_at: now,
                    version: Seq::empty(),
                    host: Seq::empty(),
                },
            ),
        ),
    }
}

pub open spec fn told_or(told: Seq<char>, known: Seq<char>) -> Seq<char> {
    if told.len() == 0 {
        known
    } else {
        told
    }
}

/// A client that told its version and host, where it is behind this peer.
pub open spec fn identified(
    client: GrpcClientView,
    peer: Seq<char>,
    version: Seq<char>,
    host: Seq<char>,
) -> GrpcClientView {
    if client.peer != peer {
        client
    } else {
        GrpcClientView {
            peer: client.peer,
            connected_at: client.connected_at,
            version: told_or(version, client.version),
            host: told_or(host, client.host),
        }
    }
}

pub open spec fn all_identified(
    clients: Seq<(u64, GrpcClientView)>,
    peer: Seq<char>,
    version: Seq<char>,
    host: Seq<char>,
) -> Seq<(u64, GrpcClientView)> {
    Seq::new(clients.len(), |i: int| (clients[i].0, identified(clients[i].1, peer, version, host)))
}

pub open spec fn infos(clients: Seq<(u64, GrpcClientView)>) -> Seq<GrpcClientView> {
    Seq::new(clients.len(), |i: int| clients[i].1)
}

/// By peer, then by host.
pub struct ByPeer;

impl Order<GrpcClientInfo> for ByPeer {
    open spec fn leq(a: GrpcClientView, b: GrpcClientView) -> bool {
        order::pair_leq((a.peer, a.host), (b.peer, b.host))
    }

    fn at_most(a: &GrpcClientInfo, b: &GrpcClientInfo) -> (r: bool) {
        order::pair_at_most(a.peer.as_str(), a.host.as_str(), b.peer.as_str(), b.host.as_str())
    }
}

impl Default for GrpcClientRegistry {
    fn default() -> (r: Self)
        ensures
            r@ == (GrpcRegistryView { last_id: 0, clients: Seq::empty() }),
    {
        let r: Self = GrpcClientRegistry { last_id: 0, clients: Vec::new() };
        proof {
            assert(r@.clients =~= Seq::<(u64, GrpcClientView)>::empty());
        }
        r
    }
}

impl GrpcClientRegistry {
    /// Adds a client that connects now. Its number is one more than the last.
    pub fn insert(&mut self, peer: String) -> (id: u64)
        ensures
            id == next_id(old(self)@.last_id),
            exists|now: UtcTime|
                now.valid() && final(self)@ == connected(
                    old(self)@,
                    peer@,
                    #[trigger] clock::time_text(now),
                ),
    {
        let now: UtcTime = clock::now();
        self.insert_at(peer, clock::text_of(now))
    }

    /// Adds a client that connected at the time `now`.
    pub fn insert_at(&mut self, peer: String, now: String) -> (id: u64)
        ensures
            id == next_id(old(self)@.last_id),
            final(self)@ == connected(old(self)@, peer@, now@),
    {
        let ghost before = self@;
        let id: u64 = if self.last_id == u64::MAX {
            0
        } else {
            self.last_id + 1
        };
        self.remove(id);
        self.last_id = id;
        let ghost rest = self@.clients;
        let info: GrpcClientInfo = GrpcClientInfo {
            peer,
            connected_at: now,
            version: String::new(),
            host: String::new(),
        };
        self.clients.push(GrpcEntry { id, info });
        proof {
            assert(info@.version =~= Seq::<char>::empty());
            assert(info@.host =~= Seq::<char>::empty());
            assert(self@.clients =~= rest.push((id, info@)));
        }
        id
    }

    /// Removes the client under a number.
    pub fn remove(&mut self, id: u64)
        ensures
            final(self)@ == (GrpcRegistryView {
                last_id: old(self)@.last_id,
                clients: without(old(self)@.clients, id),
            }),
    {
        let mut taken: Vec<GrpcEntry> = Vec::new();
        std::mem::swap(&mut taken, &mut self.clients);
        let ghost source = taken@;
        let ghost all = order::views(source);
        let mut kept: Vec<GrpcEntry> = Vec::new();
        proof {
            assert(all.take(0) =~= Seq::<(u64, GrpcClientView)>::empty());
            assert(order::views(kept@) =~= without(all.take(0), id));
        }
        for entry in it: taken
            invariant
                it.seq() == source,
                all == order::views(source),
                order::views(kept@) == without(all.take(it.index()), id),
        {
            let ghost k = it.index();
            let ghost so_far = order::views(kept@);
            proof {
                assert(all.take(k + 1).drop_last() =~= all.take(k));
                assert(all.take(k + 1).last() == entry@);
            }
            if entry.id != id {
                kept.push(entry);
                proof {
                    assert(order::views(kept@) =~= so_far.push(entry@));
                }
            }
        }
        proof {
            assert(all.take(all.len() as int) =~= all);
        }
        self.clients = kept;
    }

    /// Notes the version and the host that the clients behind a peer told.
    pub fn touch(&mut self, peer: &str, version: &str, host: &str)
        ensures
            final(self)@ == (GrpcRegistryView {
                last_id: old(self)@.last_id,
                clients: all_identified(old(self)@.clients, peer@, version@, host@),
            }),
    {
        let ghost before = self@.clients;
        let ghost target = all_identified(before, peer@, version@, host@);
        if version.is_empty() && host.is_empty() {
            proof {
                assert(target =~= before);
            }
            return ;
        }
        let ghost last = self@.last_id;
        let n: usize = self.clients.len();
        let mut i: usize = 0;
        while i < n
            invariant
                i <= n,
                n == self.clients@.len(),
                n == before.len(),
                self.last_id == last,
                target == all_identified(before, peer@, version@, host@),
                forall|k: int| 0 <= k < i ==> (#[trigger] self.clients@[k])@ == target[k],
                forall|k: int| i <= k < n ==> (#[trigger] self.clients@[k])@ == before[k],
            decreases n - i,
        {
            if text::text_eq(self.clients[i].info.peer.as_str(), peer) {
                let old_info: GrpcClientInfo = self.clients[i].info.clone();
                let info: GrpcClientInfo = GrpcClientInfo {
                    peer: old_info.peer,
                    connected_at: old_info.connected_at,
                    version: if version.is_empty() {
                        old_info.version
                    } else {
                        version.to_string()
                    },
                    host: if host.is_empty() {
                        old_info.host
                    } else {
                        host.to_string()
                    },
                };
                let id: u64 = self.clients[i].id;
                proof {
                    assert(self.clients@[i as int]@ == before[i as int]);
                    assert((id, info@) == target[i as int]);
                }
                self.clients.set(i, GrpcEntry { id, info });
            } else {
                proof {
                    assert(self.clients@[i as int]@ == before[i as int]);
                }
            }
            i = i + 1;
        }
        proof {
            assert(self@.clients =~= target);
        }
    }

    /// The connected clients, by peer and host.
    pub fn clients(&self) -> (r: Vec<GrpcClientInfo>)
        ensures
            order::views(r@) == order::ordered(
                infos(self@.clients),
                order::relation::<GrpcClientInfo, ByPeer>(),
            ),
    {
        let mut list: Vec<GrpcClientInfo> = Vec::new();
        let mut i: usize = 0;
        while i < self.clients.len()
            invariant
                i <= self.clients@.len(),
                list@.len() == i,
                forall|k: int| 0 <= k < i ==> (#[trigger] list@[k])@ == self.clients@[k]@.1,
            decreases self.clients.len() - i,
        {
            list.push(self.clients[i].info.clone());
            i = i + 1;
        }
        proof {
            assert(order::views(list@) =~= infos(self@.clients));
        }
        order::sort::<GrpcClientInfo, ByPeer>(list)
    }
}

proof fn lemma_without(clients: Seq<(u64, GrpcClientView)>, id: u64)
    ensures
        forall|i: int|
            0 <= i < without(clients, id).len() ==> (#[trigger] without(clients, id)[i]).0 != id
                && clients.contains(without(clients, id)[i]),
        (forall|i: int| 0 <= i < clients.len() ==> (#[trigger] clients[i]).0 != id) ==> without(
            clients,
            id,
        ) == clients,
    decreases clients.len(),
{
    if clients.len() > 0 {
        let init = clients.drop_last();
        lemma_without(init, id);
        assert forall|i: int| 0 <= i < without(clients, id).len() implies (#[trigger] without(
            clients,
            id,
        )[i]).0 != id && clients.contains(without(clients, id)[i]) by {
            if i < without(init, id).len() {
                let e = without(init, id)[i];
                assert(clients[init.index_of(e)] == e);
            } else {
                assert(clients[clients.len() - 1] == without(clients, id)[i]);
            }
        }
        if forall|i: int| 0 <= i < clients.len() ==> (#[trigger] clients[i]).0 != id {
            assert forall|i: int| 0 <= i < init.len() implies (#[trigger] init[i]).0 != id by {
                assert(init[i] == clients[i]);
            }
            assert(init.push(clients.last()) =~= clients);
        }
    }
}

/// A client that leaves again leaves the others as they were.
pub proof fn law_leaving_undoes_connecting(
    registry: GrpcRegistryView,
    peer: Seq<char>,
    now: Seq<char>,
)
    requires
        forall|i: int|
            0 <= i < registry.clients.len() ==> (#[trigger] registry.clients[i]).0 != next_id(
                registry.last_id,
            ),
    ensures
        without(connected(registry, peer, now).clients, next_id(registry.last_id))
            == registry.clients,
{
    let id = next_id(registry.last_id);
    let after = connected(registry, peer, now).clients;
    lemma_without(registry.clients, id);
    assert(after.drop_last() =~= registry.clients);
}

/// The clients are listed by peer and host, and all of them are.
pub proof fn law_clients_are_listed_in_order(registry: GrpcRegistryView)
    ensures
        ({
            let list = order::ordered(
                infos(registry.clients),
                order::relation::<GrpcClientInfo, ByPeer>(),
            );
            &&& list.to_multiset() == infos(registry.clients).to_multiset()
            &&& forall|i: int, j: int|
                0 <= i < j < list.len() ==> order::pair_leq(
                    ((#[trigger] list[i]).peer, list[i].host),
                    ((#[trigger] list[j]).peer, list[j].host),
                )
        }),
{
    let leq = order::relation::<GrpcClientInfo, ByPeer>();
    assert forall|a: GrpcClientView, b: GrpcClientView| #[trigger] leq(a, b) || leq(b, a) by {
        order::lemma_pair_leq((a.peer, a.host), (b.peer, b.host), (b.peer, b.host));
    }
    assert forall|a: GrpcClientView, b: GrpcClientView, c: GrpcClientView| #[trigger]
        leq(a, b) && #[trigger] leq(b, c) implies leq(a, c) by {
        order::lemma_pair_leq((a.peer, a.host), (b.peer, b.host), (c.peer, c.host));
    }
    order::law_ordered(infos(registry.clients), leq);
    let list = order::ordered(infos(registry.clients), leq);
    assert forall|i: int, j: int| 0 <= i < j < list.len() implies order::pair_leq(
        ((#[trigger] list[i]).peer, list[i].host),
        ((#[trigger] list[j]).peer, list[j].host),
    ) by {
        assert(leq(list[i], list[j]));
    }
}

/// A client that connects is listed last, with its address and the time, and
/// without a name yet. Nobody else is touched.
pub proof fn law_a_client_that_connects_is_listed(
    registry: GrpcRegistryView,
    peer: Seq<char>,
    now: Seq<char>,
)
    requires
        forall|i: int|
            0 <= i < registry.clients.len() ==> (#[trigger] registry.clients[i]).0 != next_id(
                registry.last_id,
            ),
    ensures
        ({
            let after = connected(registry, peer, now);
            let (id, client) = after.clients.last();
            &&& after.clients.drop_last() == registry.clients
            &&& id == after.last_id
            &&& id as int == (registry.last_id + 1) % 0x1_0000_0000_0000_0000
            &&& client.peer == peer
            &&& client.connected_at == now
            &&& client.version.len() == 0
            &&& client.host.len() == 0
        }),
{
    lemma_without(registry.clients, next_id(registry.last_id));
    assert(connected(registry, peer, now).clients.drop_last() =~= registry.clients);
}

/// Taking a client off the list keeps the others in their order.
pub proof fn law_the_others_keep_their_places(
    a: Seq<(u64, GrpcClientView)>,
    b: Seq<(u64, GrpcClientView)>,
    id: u64,
)
    ensures
        without(a + b, id) == without(a, id) + without(b, id),
        a.len() == 1 && a[0].0 == id ==> without(a, id).len() == 0,
        a.len() == 1 && a[0].0 != id ==> without(a, id) == a,
    decreases b.len(),
{
    if b.len() > 0 {
        law_the_others_keep_their_places(a, b.drop_last(), id);
        assert((a + b).drop_last() =~= a + b.drop_last());
        assert((a + b).last() == b.last());
    } else {
        assert(a + b =~= a);
        assert(without(a, id) + without(b, id) =~= without(a, id));
    }
    if a.len() == 1 {
        reveal_with_fuel(without, 2);
        assert(a.drop_last().len() == 0);
        assert(a.drop_last().push(a.last()) =~= a);
    }
}

/// What a client says of itself is noted for the connections of its address
/// alone. What it leaves empty stays as it was known.
pub proof fn law_a_client_is_known_by_what_it_says(
    clients: Seq<(u64, GrpcClientView)>,
    peer: Seq<char>,
    version: Seq<char>,
    host: Seq<char>,
    i: int,
)
    requires
        0 <= i < clients.len(),
    ensures
        all_identified(clients, peer, version, host).len() == clients.len(),
        ({
            let old = clients[i];
            let new = all_identified(clients, peer, version, host)[i];
            &&& new.0 == old.0
            &&& new.1.peer == old.1.peer
            &&& new.1.connected_at == old.1.connected_at
            &&& old.1.peer != peer ==> new == old
            &&& old.1.peer == peer && version.len() > 0 ==> new.1.version == version
            &&& old.1.peer == peer && host.len() > 0 ==> new.1.host == host
            &&& version.len() == 0 ==> new.1.version == old.1.version
            &&& host.len() == 0 ==> new.1.host == old.1.host
        }),
{
}

} // verus!
