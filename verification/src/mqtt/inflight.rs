//! Messages that were published to a client and wait for its acknowledgement.
use vstd::prelude::*;

verus! {

/// A message under the packet identifier with which it was published.
pub struct Outstanding {
    pub packet_id: u16,
    pub message_id: String,
    pub lease: String,
}

/// The messages that wait for an acknowledgement, by packet identifier.
pub struct InflightPublishes {
    entries: Vec<Outstanding>,
}

/// The message and the lease under each packet identifier.
pub type Published = Map<u16, (Seq<char>, Seq<char>)>;

/// What a list of messages says of each packet identifier.
pub open spec fn published(entries: Seq<Outstanding>) -> Published
    decreases entries.len(),
{
    if entries.len() == 0 {
        Map::empty()
    } else {
        let last = entries.last();
        published(entries.drop_last()).insert(last.packet_id, (last.message_id@, last.lease@))
    }
}

impl View for InflightPublishes {
    type V = Published;

    closed spec fn view(&self) -> Published {
        published(self.entries@)
    }
}

pub open spec fn has_id(entries: Seq<Outstanding>, id: u16) -> bool {
    exists|i: int| 0 <= i < entries.len() && (#[trigger] entries[i]).packet_id == id
}

proof fn lemma_published_ids(entries: Seq<Outstanding>)
    ensures
        forall|id: u16| #[trigger] published(entries).contains_key(id) <==> has_id(entries, id),
    decreases entries.len(),
{
    if entries.len() > 0 {
        let init = entries.drop_last();
        lemma_published_ids(init);
        assert forall|id: u16| #[trigger] published(entries).contains_key(id) <==> has_id(
            entries,
            id,
        ) by {
            assert(published(init).contains_key(id) <==> has_id(init, id));
            if has_id(init, id) {
                let i = choose|i: int| 0 <= i < init.len() && (#[trigger] init[i]).packet_id == id;
                assert(entries[i].packet_id == id);
            }
            if has_id(entries, id) && entries.last().packet_id != id {
                let i = choose|i: int|
                    0 <= i < entries.len() && (#[trigger] entries[i]).packet_id == id;
                assert(init[i].packet_id == id);
            }
            if entries.last().packet_id == id {
                assert(entries[entries.len() - 1].packet_id == id);
            }
        }
    }
}

/// Without the entries under an identifier, a list says nothing of it and the
/// same of all others.
pub open spec fn without_id(entries: Seq<Outstanding>, id: u16) -> Seq<Outstanding>
    decreases entries.len(),
{
    if entries.len() == 0 {
        entries
    } else if entries.last().packet_id == id {
        without_id(entries.drop_last(), id)
    } else {
        without_id(entries.drop_last(), id).push(entries.last())
    }
}

proof fn lemma_without_id(entries: Seq<Outstanding>, id: u16)
    ensures
        published(without_id(entries, id)) == published(entries).remove(id),
    decreases entries.len(),
{
    if entries.len() == 0 {
        assert(published(entries).remove(id) =~= published(entries));
    } else {
        let init = entries.drop_last();
        let last = entries.last();
        lemma_without_id(init, id);
        if last.packet_id == id {
            assert(published(entries).remove(id) =~= published(init).remove(id));
        } else {
            let kept = without_id(init, id);
            assert(kept.push(last).drop_last() =~= kept);
            assert(published(entries).remove(id) =~= published(init).remove(id).insert(
                last.packet_id,
                (last.message_id@, last.lease@),
            ));
        }
    }
}

impl InflightPublishes {
    pub fn new() -> (r: Self)
        ensures
            r@ == Published::empty(),
    {
        InflightPublishes { entries: Vec::new() }
    }

    /// Whether a packet identifier is in use.
    pub fn contains(&self, id: u16) -> (r: bool)
        ensures
            r == self@.contains_key(id),
    {
        proof {
            lemma_published_ids(self.entries@);
        }
        let mut i: usize = 0;
        while i < self.entries.len()
            invariant
                i <= self.entries@.len(),
                forall|k: int| 0 <= k < i ==> (#[trigger] self.entries@[k]).packet_id != id,
            decreases self.entries.len() - i,
        {
            if self.entries[i].packet_id == id {
                proof {
                    lemma_published_ids(self.entries@);
                    assert(has_id(self.entries@, id));
                }
                return true;
            }
            i = i + 1;
        }
        false
    }

    /// Removes and returns the message and the lease under a packet identifier.
    pub fn remove(&mut self, id: u16) -> (r: Option<(String, String)>)
        ensures
            final(self)@ == old(self)@.remove(id),
            match r {
                Some((message_id, lease)) => old(self)@.contains_key(id) && old(self)@[id] == (
                    message_id@,
                    lease@,
                ),
                None => !old(self)@.contains_key(id),
            },
    {
        let mut taken: Vec<Outstanding> = Vec::new();
        std::mem::swap(&mut taken, &mut self.entries);
        let ghost source = taken@;
        let mut kept: Vec<Outstanding> = Vec::new();
        let mut found: Option<(String, String)> = None;
        proof {
            assert(source.take(0) =~= Seq::<Outstanding>::empty());
        }
        for entry in it: taken
            invariant
                it.seq() == source,
                kept@ == without_id(source.take(it.index()), id),
                match found {
                    Some((message_id, lease)) => published(source.take(it.index())).contains_key(id)
                        && published(source.take(it.index()))[id] == (message_id@, lease@),
                    None => !published(source.take(it.index())).contains_key(id),
                },
        {
            let ghost k = it.index();
            proof {
                assert(source.take(k + 1).drop_last() =~= source.take(k));
                assert(source.take(k + 1).last() == entry);
            }
            if entry.packet_id == id {
                found = Some((entry.message_id, entry.lease));
            } else {
                kept.push(entry);
            }
        }
        proof {
            assert(source.take(source.len() as int) =~= source);
            lemma_without_id(source, id);
        }
        self.entries = kept;
        found
    }

    /// Keeps a message and its lease under a packet identifier.
    pub fn insert(&mut self, id: u16, message_id: String, lease: String)
        ensures
            final(self)@ == old(self)@.insert(id, (message_id@, lease@)),
    {
        let ghost before = self.entries@;
        let entry: Outstanding = Outstanding { packet_id: id, message_id, lease };
        self.entries.push(entry);
        proof {
            assert(self.entries@.drop_last() =~= before);
        }
    }
}

// ------------------------------------------------------- packet identifiers

/// The packet identifier after another: they run from 1 to 65535.
pub open spec fn following(id: u16) -> u16 {
    if id == u16::MAX {
        1
    } else {
        (id + 1) as u16
    }
}

/// The first identifier after `id` that is not in use, among the `n` that follow;
/// the last of them where all are.
pub open spec fn free_after(id: u16, used: Published, n: int) -> u16
    decreases n,
{
    if n <= 0 {
        id
    } else if !used.contains_key(following(id)) {
        following(id)
    } else {
        free_after(following(id), used, n - 1)
    }
}

/// Gives out a packet identifier that is not in use.
pub fn alloc_packet_id(next: &mut u16, used: &InflightPublishes) -> (r: u16)
    ensures
        r == free_after(*old(next), used@, 65535),
        *final(next) == r,
{
    let ghost start = *next;
    let mut left: u16 = 65535;
    while left > 0
        invariant
            start == *old(next),
            free_after(start, used@, 65535) == free_after(*next, used@, left as int),
        decreases left,
    {
        let id: u16 = if *next == u16::MAX {
            1
        } else {
            *next + 1
        };
        *next = id;
        if !used.contains(id) {
            return id;
        }
        left = left - 1;
    }
    *next
}

/// The identifier that comes `k` after `id`.
spec fn ahead(id: u16, k: int) -> int {
    (id + k - 1) % 65535 + 1
}

proof fn lemma_free_after(id: u16, used: Published, n: int, k: int)
    requires
        1 <= k <= n,
        !used.contains_key(ahead(id, k) as u16),
    ensures
        !used.contains_key(free_after(id, used, n)),
        1 <= free_after(id, used, n),
    decreases n,
{
    let next = following(id);
    assert(ahead(id, 1) == next as int);
    if used.contains_key(next) {
        assert(k > 1);
        assert(ahead(next, k - 1) == ahead(id, k)) by {
            if id == u16::MAX {
                assert(next == 1);
                assert((65535 + k - 1) % 65535 == (1 + (k - 1) - 1) % 65535) by (nonlinear_arith);
            }
        }
        lemma_free_after(next, used, n - 1, k - 1);
    }
}

/// As long as a packet identifier is free, the one given out is.
pub proof fn law_a_free_packet_id_is_found(id: u16, used: Published, free: u16)
    requires
        free >= 1,
        !used.contains_key(free),
    ensures
        !used.contains_key(free_after(id, used, 65535)),
        1 <= free_after(id, used, 65535),
{
    let k = (free - id - 1) % 65535 + 1;
    assert(ahead(id, k) == free as int) by {
        let m = (free - id - 1) % 65535;
        assert((id + m) % 65535 == (free - 1) % 65535) by (nonlinear_arith)
            requires
                m == (free - id - 1) % 65535,
        ;
    }
    lemma_free_after(id, used, 65535, k);
}

/// Packet identifiers run from one to the greatest and start again at one; zero
/// is never given out.
pub proof fn law_packet_ids_go_round(id: u16, used: Published)
    ensures
        id < 65535 ==> following(id) == id + 1,
        id == 65535 ==> following(id) == 1,
        !used.contains_key(following(id)) ==> free_after(id, used, 65535) == following(id),
{
}

/// A settled packet identifier is forgotten, and every other one stays with its
/// message and lease.
pub proof fn law_a_settled_packet_id_is_forgotten(entries: Seq<Outstanding>, id: u16, other: u16)
    requires
        other != id,
    ensures
        !published(without_id(entries, id)).contains_key(id),
        published(without_id(entries, id)).contains_key(other) == published(entries).contains_key(
            other,
        ),
        published(entries).contains_key(other) ==> published(without_id(entries, id))[other]
            == published(entries)[other],
{
    lemma_without_id(entries, id);
}

/// What is outstanding under a packet identifier is the message that was sent
/// under it last.
pub proof fn law_the_last_message_is_outstanding(entries: Seq<Outstanding>, i: int)
    requires
        0 <= i < entries.len(),
        forall|j: int|
            i < j < entries.len() ==> (#[trigger] entries[j]).packet_id != entries[i].packet_id,
    ensures
        published(entries).contains_key(entries[i].packet_id),
        published(entries)[entries[i].packet_id].0 == entries[i].message_id@,
        published(entries)[entries[i].packet_id].1 == entries[i].lease@,
    decreases entries.len(),
{
    let init = entries.drop_last();
    if i < init.len() {
        assert(init[i] == entries[i]);
        assert forall|j: int| i < j < init.len() implies (#[trigger] init[j]).packet_id
            != init[i].packet_id by {
            assert(init[j] == entries[j]);
        }
        law_the_last_message_is_outstanding(init, i);
        assert(entries[entries.len() - 1].packet_id != entries[i].packet_id);
    }
}

} // verus!
