//! A map from text to values, kept in insertion order.
use vstd::prelude::*;

use crate::text;

verus! {

/// A map keyed by text. Keys are unique; entries keep the order in which their
/// keys came in.
pub struct TextMap<V> {
    keys: Vec<String>,
    values: Vec<V>,
}

impl<V: View> View for TextMap<V> {
    type V = Map<Seq<char>, V::V>;

    closed spec fn view(&self) -> Map<Seq<char>, V::V> {
        Map::new(
            |k: Seq<char>| self.key_seq().contains(k),
            |k: Seq<char>| self.values@[self.key_seq().index_of(k)]@,
        )
    }
}

impl<V> TextMap<V> {
    /// The keys in order.
    pub closed spec fn key_seq(&self) -> Seq<Seq<char>> {
        text::texts(self.keys@)
    }

    #[verifier::type_invariant]
    spec fn unique(self) -> bool {
        &&& self.keys@.len() == self.values@.len()
        &&& self.key_seq().no_duplicates()
    }
}

impl<V: View> TextMap<V> {
    /// The map is given by its keys and the values at their places.
    proof fn lemma_at(&self, i: int)
        requires
            self.unique(),
            0 <= i < self.keys@.len(),
        ensures
            self@.contains_key(self.keys@[i]@),
            self@[self.keys@[i]@] == self.values@[i]@,
            self.key_seq()[i] == self.keys@[i]@,
    {
        let ks = self.key_seq();
        assert(ks[i] == self.keys@[i]@);
        assert(ks.contains(ks[i]));
        let j = ks.index_of(ks[i]);
        assert(0 <= j < ks.len() && ks[j] == ks[i]);
        assert(j == i);
    }

    pub fn new() -> (r: Self)
        ensures
            r@ == Map::<Seq<char>, V::V>::empty(),
            r.key_seq() == Seq::<Seq<char>>::empty(),
    {
        let r: Self = TextMap { keys: Vec::new(), values: Vec::new() };
        assert(r.key_seq() =~= Seq::<Seq<char>>::empty());
        assert(r@ =~= Map::<Seq<char>, V::V>::empty());
        r
    }

    /// The number of keys. The keys in order are the keys of the map, each once.
    pub fn len(&self) -> (r: usize)
        ensures
            r == self.key_seq().len(),
            r == self@.dom().len(),
            self@.dom().finite(),
            self.key_seq().no_duplicates(),
            forall|k: Seq<char>| #[trigger]
                self@.contains_key(k) <==> self.key_seq().contains(k),
    {
        proof {
            use_type_invariant(self);
            self.key_seq().unique_seq_to_set();
            assert(self@.dom() =~= self.key_seq().to_set());
        }
        self.keys.len()
    }

    /// The key at place `i`.
    pub fn key_at(&self, i: usize) -> (r: &String)
        requires
            i < self.key_seq().len(),
        ensures
            r@ == self.key_seq()[i as int],
            self@.contains_key(r@),
    {
        proof {
            use_type_invariant(self);
            self.lemma_at(i as int);
        }
        &self.keys[i]
    }

    /// The value at place `i`.
    pub fn value_at(&self, i: usize) -> (r: &V)
        requires
            i < self.key_seq().len(),
        ensures
            r@ == self@[self.key_seq()[i as int]],
            self@.contains_key(self.key_seq()[i as int]),
    {
        proof {
            use_type_invariant(self);
            self.lemma_at(i as int);
        }
        &self.values[i]
    }

    /// The place of `key`.
    pub fn find(&self, key: &str) -> (r: Option<usize>)
        ensures
            match r {
                Some(i) => i < self.key_seq().len() && self.key_seq()[i as int] == key@
                    && self@.contains_key(key@),
                None => !self@.contains_key(key@),
            },
    {
        proof {
            use_type_invariant(self);
        }
        let mut i: usize = 0;
        while i < self.keys.len()
            invariant
                self.unique(),
                i <= self.keys@.len(),
                forall|j: int| 0 <= j < i ==> #[trigger] self.keys@[j]@ != key@,
            decreases self.keys.len() - i,
        {
            if text::text_eq(self.keys[i].as_str(), key) {
                proof {
                    self.lemma_at(i as int);
                }
                return Some(i);
            }
            i = i + 1;
        }
        proof {
            if self.key_seq().contains(key@) {
                let j = self.key_seq().index_of(key@);
                assert(self.keys@[j]@ == key@);
            }
        }
        None
    }

    pub fn contains(&self, key: &str) -> (r: bool)
        ensures
            r == self@.contains_key(key@),
    {
        self.find(key).is_some()
    }

    pub fn get(&self, key: &str) -> (r: Option<&V>)
        ensures
            match r {
                Some(v) => self@.contains_key(key@) && v@ == self@[key@],
                None => !self@.contains_key(key@),
            },
    {
        match self.find(key) {
            Some(i) => Some(self.value_at(i)),
            None => None,
        }
    }

    /// Puts `value` under `key`, in the place of the value that was there.
    pub fn set(&mut self, key: String, value: V)
        ensures
            final(self)@ == old(self)@.insert(key@, value@),
            final(self).key_seq() == (if old(self)@.contains_key(key@) {
                old(self).key_seq()
            } else {
                old(self).key_seq().push(key@)
            }),
    {
        proof {
            use_type_invariant(&*self);
        }
        let place: Option<usize> = self.find(key.as_str());
        let mut taken: Self = TextMap { keys: Vec::new(), values: Vec::new() };
        std::mem::swap(self, &mut taken);
        let ghost before = taken;
        let TextMap { mut keys, mut values } = taken;
        let ghost old_keys = text::texts(keys@);
        match place {
            Some(i) => {
                let ghost text = key@;
                values.set(i, value);
                *self = TextMap { keys, values };
                proof {
                    assert(self.key_seq() =~= old_keys);
                    assert(self@ =~= before@.insert(text, value@)) by {
                        assert forall|k: Seq<char>| before@.contains_key(k) implies self@[k]
                            == before@.insert(text, value@)[k] by {
                            let at = old_keys.index_of(k);
                            assert(old_keys[at] == k);
                            assert(old_keys[i as int] == text);
                        }
                    }
                }
            },
            None => {
                let ghost text = key@;
                keys.push(key);
                values.push(value);
                proof {
                    assert(text::texts(keys@) =~= old_keys.push(text));
                    assert(!old_keys.contains(text));
                    assert(old_keys.push(text).no_duplicates());
                }
                *self = TextMap { keys, values };
                proof {
                    assert(self.key_seq() =~= old_keys.push(text));
                    assert(self.key_seq()[old_keys.len() as int] == text);
                    assert forall|k: Seq<char>| #[trigger]
                        self.key_seq().contains(k) <==> (old_keys.contains(k) || k == text) by {
                        if old_keys.contains(k) {
                            let at = old_keys.index_of(k);
                            assert(self.key_seq()[at] == k);
                        }
                        if self.key_seq().contains(k) && k != text {
                            let at = self.key_seq().index_of(k);
                            assert(old_keys[at] == k);
                        }
                    }
                    assert(self@ =~= before@.insert(text, value@)) by {
                        assert forall|k: Seq<char>| self@.contains_key(k) implies self@[k]
                            == before@.insert(text, value@)[k] by {
                            let now = self.key_seq().index_of(k);
                            assert(self.key_seq()[now] == k);
                            if k != text {
                                let at = old_keys.index_of(k);
                                assert(old_keys[at] == k);
                                assert(self.key_seq()[at] == k);
                                assert(at == now);
                            }
                        }
                    }
                }
            },
        }
    }

    /// Puts `value` in the place of the value at place `i`.
    pub fn replace_at(&mut self, i: usize, value: V)
        requires
            i < old(self).key_seq().len(),
        ensures
            final(self)@ == old(self)@.insert(old(self).key_seq()[i as int], value@),
            final(self).key_seq() == old(self).key_seq(),
            old(self)@.contains_key(old(self).key_seq()[i as int]),
    {
        proof {
            use_type_invariant(&*self);
            self.lemma_at(i as int);
        }
        let mut taken: Self = TextMap { keys: Vec::new(), values: Vec::new() };
        std::mem::swap(self, &mut taken);
        let ghost before = taken;
        let TextMap { keys, mut values } = taken;
        let ghost old_keys = text::texts(keys@);
        values.set(i, value);
        *self = TextMap { keys, values };
        proof {
            let key = old_keys[i as int];
            assert(self.key_seq() =~= old_keys);
            assert(self@ =~= before@.insert(key, value@)) by {
                assert forall|k: Seq<char>| before@.contains_key(k) implies self@[k]
                    == before@.insert(key, value@)[k] by {
                    let at = old_keys.index_of(k);
                    assert(old_keys[at] == k);
                }
            }
        }
    }

    /// Takes the entry under `key` out.
    pub fn take(&mut self, key: &str) -> (r: Option<V>)
        ensures
            final(self)@ == old(self)@.remove(key@),
            match r {
                Some(v) => old(self)@.contains_key(key@) && v@ == old(self)@[key@],
                None => !old(self)@.contains_key(key@),
            },
            final(self).key_seq() == (if old(self)@.contains_key(key@) {
                old(self).key_seq().remove(old(self).key_seq().index_of(key@))
            } else {
                old(self).key_seq()
            }),
    {
        proof {
            use_type_invariant(&*self);
        }
        let place: Option<usize> = self.find(key);
        match place {
            None => {
                proof {
                    assert(self@.remove(key@) =~= self@);
                }
                None
            },
            Some(i) => {
                let mut taken: Self = TextMap { keys: Vec::new(), values: Vec::new() };
                std::mem::swap(self, &mut taken);
                let ghost before = taken;
                let TextMap { mut keys, mut values } = taken;
                let ghost old_keys = text::texts(keys@);
                proof {
                    before.lemma_at(i as int);
                }
                keys.remove(i);
                let value: V = values.remove(i);
                proof {
                    assert(text::texts(keys@) =~= old_keys.remove(i as int));
                    assert(old_keys.remove(i as int).no_duplicates()) by {
                        assert forall|a: int, b: int|
                            0 <= a < b < old_keys.remove(i as int).len() implies old_keys.remove(
                            i as int,
                        )[a] != old_keys.remove(i as int)[b] by {
                            let x = if a < i {
                                a
                            } else {
                                a + 1
                            };
                            let y = if b < i {
                                b
                            } else {
                                b + 1
                            };
                            assert(old_keys[x] != old_keys[y]);
                        }
                    }
                }
                *self = TextMap { keys, values };
                proof {
                    let new_keys = self.key_seq();
                    assert(new_keys =~= old_keys.remove(i as int));
                    assert(old_keys.index_of(key@) == i);
                    assert forall|k: Seq<char>| #[trigger]
                        new_keys.contains(k) <==> (old_keys.contains(k) && k != key@) by {
                        if new_keys.contains(k) {
                            let at = new_keys.index_of(k);
                            let x = if at < i {
                                at
                            } else {
                                at + 1
                            };
                            assert(old_keys[x] == k);
                            assert(old_keys[i as int] == key@);
                            assert(x != i);
                        }
                        if old_keys.contains(k) && k != key@ {
                            let x = old_keys.index_of(k);
                            assert(old_keys[x] == k);
                            assert(x != i);
                            let at = if x < i {
                                x
                            } else {
                                x - 1
                            };
                            assert(new_keys[at] == k);
                        }
                    }
                    assert(self@ =~= before@.remove(key@)) by {
                        assert forall|k: Seq<char>| self@.contains_key(k) implies self@[k]
                            == before@[k] by {
                            let at = new_keys.index_of(k);
                            assert(new_keys[at] == k);
                            let x = if at < i {
                                at
                            } else {
                                at + 1
                            };
                            assert(old_keys[x] == k);
                            before.lemma_at(x);
                        }
                    }
                }
                Some(value)
            },
        }
    }

    /// Removes every entry whose key sorts before `cutoff`.
    pub fn drop_before(&mut self, cutoff: &str)
        ensures
            final(self)@ == not_before(old(self)@, cutoff@),
    {
        let ghost before = self@;
        let mut n: usize = self.len();
        let mut i: usize = 0;
        while i < n
            invariant
                i <= n,
                n == self.key_seq().len(),
                self.key_seq().no_duplicates(),
                forall|k: Seq<char>| #[trigger]
                    self@.contains_key(k) <==> self.key_seq().contains(k),
                forall|j: int|
                    0 <= j < i ==> !text::text_less(#[trigger] self.key_seq()[j], cutoff@),
                forall|k: Seq<char>| #[trigger]
                    self@.contains_key(k) ==> before.contains_key(k) && self@[k] == before[k],
                forall|k: Seq<char>|
                    before.contains_key(k) && !(#[trigger] self@.contains_key(k))
                        ==> text::text_less(k, cutoff@),
            decreases n - i,
        {
            let key: String = self.key_at(i).clone();
            if text::less(key.as_str(), cutoff) {
                let ghost keys = self.key_seq();
                let ghost then = self@;
                proof {
                    assert(keys.index_of(key@) == i);
                }
                self.take(key.as_str());
                proof {
                    assert(self.key_seq() =~= keys.remove(i as int));
                    assert forall|j: int| 0 <= j < i implies !text::text_less(
                        #[trigger] self.key_seq()[j],
                        cutoff@,
                    ) by {
                        assert(keys[j] == self.key_seq()[j]);
                    }
                    assert forall|k: Seq<char>| before.contains_key(k) && !(
                    #[trigger] self@.contains_key(k)) implies text::text_less(k, cutoff@) by {
                        if k != key@ {
                            assert(!then.contains_key(k));
                        }
                    }
                }
                n = self.len();
            } else {
                i = i + 1;
            }
        }
        proof {
            assert forall|k: Seq<char>| #[trigger] self@.contains_key(k) implies !text::text_less(
                k,
                cutoff@,
            ) by {
                let j = self.key_seq().index_of(k);
                assert(self.key_seq()[j] == k);
            }
            assert(self@ =~= not_before(before, cutoff@));
        }
    }

    /// The keys in ascending order.
    pub fn sorted_keys(&self) -> (r: Vec<String>)
        ensures
            text::ascending(text::texts(r@)),
            forall|k: Seq<char>| #[trigger]
                text::texts(r@).contains(k) <==> self@.contains_key(k),
    {
        let n: usize = self.len();
        let mut out: Vec<String> = Vec::new();
        let ghost ks = self.key_seq();
        let mut i: usize = 0;
        while i < n
            invariant
                i <= n,
                n == ks.len(),
                ks == self.key_seq(),
                text::ascending(text::texts(out@)),
                forall|k: Seq<char>| #[trigger]
                    text::texts(out@).contains(k) <==> ks.take(i as int).contains(k),
            decreases n - i,
        {
            let ghost before = text::texts(out@);
            text::insert_sorted(&mut out, self.key_at(i).clone());
            proof {
                let now = ks.take(i + 1);
                assert forall|k: Seq<char>| #[trigger]
                    text::texts(out@).contains(k) <==> now.contains(k) by {
                    assert(now[i as int] == ks[i as int]);
                    if ks.take(i as int).contains(k) {
                        let at = ks.take(i as int).index_of(k);
                        assert(now[at] == k);
                    }
                    if now.contains(k) && k != ks[i as int] {
                        let at = now.index_of(k);
                        assert(ks.take(i as int)[at] == k);
                    }
                    assert(before.contains(k) <==> ks.take(i as int).contains(k));
                }
            }
            i = i + 1;
        }
        proof {
            assert(ks.take(n as int) =~= ks);
        }
        out
    }
}

impl Clone for TextMap<String> {
    fn clone(&self) -> (r: Self)
        ensures
            r@ == self@,
            r.key_seq() == self.key_seq(),
    {
        proof {
            use_type_invariant(self);
        }
        let keys: Vec<String> = self.keys.clone();
        let values: Vec<String> = self.values.clone();
        proof {
            assert(keys@ =~= self.keys@);
            assert(values@ =~= self.values@);
        }
        TextMap { keys, values }
    }
}

/// `m` with `f` applied to every entry.
pub open spec fn mapped<V>(m: Map<Seq<char>, V>, f: spec_fn(Seq<char>, V) -> V) -> Map<
    Seq<char>,
    V,
> {
    Map::new(|k: Seq<char>| m.contains_key(k), |k: Seq<char>| f(k, m[k]))
}

/// `m` with `f` applied to the entries of the first `n` keys.
pub open spec fn mapped_upto<V>(
    m: Map<Seq<char>, V>,
    keys: Seq<Seq<char>>,
    n: int,
    f: spec_fn(Seq<char>, V) -> V,
) -> Map<Seq<char>, V> {
    Map::new(
        |k: Seq<char>| m.contains_key(k),
        |k: Seq<char>|
            if keys.take(n).contains(k) {
                f(k, m[k])
            } else {
                m[k]
            },
    )
}

/// Going on by one key applies `f` to one more entry.
pub proof fn lemma_mapped_step<V>(
    m: Map<Seq<char>, V>,
    keys: Seq<Seq<char>>,
    n: int,
    f: spec_fn(Seq<char>, V) -> V,
)
    requires
        0 <= n < keys.len(),
        keys.no_duplicates(),
        m.contains_key(keys[n]),
    ensures
        mapped_upto(m, keys, n, f)[keys[n]] == m[keys[n]],
        mapped_upto(m, keys, n + 1, f) == mapped_upto(m, keys, n, f).insert(
            keys[n],
            f(keys[n], m[keys[n]]),
        ),
{
    let then = keys.take(n);
    let now = keys.take(n + 1);
    assert(!then.contains(keys[n])) by {
        if then.contains(keys[n]) {
            let i = then.index_of(keys[n]);
            assert(keys[i] == keys[n]);
        }
    }
    assert forall|k: Seq<char>| #[trigger] now.contains(k) <==> (then.contains(k) || k
        == keys[n]) by {
        assert(now[n] == keys[n]);
        if then.contains(k) {
            assert(now[then.index_of(k)] == k);
        }
        if now.contains(k) && k != keys[n] {
            assert(then[now.index_of(k)] == k);
        }
    }
    assert(mapped_upto(m, keys, n + 1, f) =~= mapped_upto(m, keys, n, f).insert(
        keys[n],
        f(keys[n], m[keys[n]]),
    ));
}

/// Before the first key nothing has changed, after the last key everything has.
pub proof fn lemma_mapped_ends<V>(
    m: Map<Seq<char>, V>,
    keys: Seq<Seq<char>>,
    f: spec_fn(Seq<char>, V) -> V,
)
    requires
        forall|k: Seq<char>| #[trigger] m.contains_key(k) <==> keys.contains(k),
    ensures
        mapped_upto(m, keys, 0, f) == m,
        mapped_upto(m, keys, keys.len() as int, f) == mapped(m, f),
{
    assert(keys.take(0) =~= Seq::<Seq<char>>::empty());
    assert(mapped_upto(m, keys, 0, f) =~= m);
    assert(keys.take(keys.len() as int) =~= keys);
    assert(mapped_upto(m, keys, keys.len() as int, f) =~= mapped(m, f));
}

/// The entries of `m` whose keys do not sort before `cutoff`.
pub open spec fn not_before<V>(m: Map<Seq<char>, V>, cutoff: Seq<char>) -> Map<Seq<char>, V> {
    Map::new(
        |k: Seq<char>| m.contains_key(k) && !text::text_less(k, cutoff),
        |k: Seq<char>| m[k],
    )
}

pub open spec fn entry<V>(m: Map<Seq<char>, V>, k: Seq<char>) -> Option<V> {
    if m.contains_key(k) {
        Some(m[k])
    } else {
        None
    }
}

/// `a` with every entry of `b` merged in by `g`.
pub open spec fn merged<A, B>(
    a: Map<Seq<char>, A>,
    b: Map<Seq<char>, B>,
    g: spec_fn(Option<A>, B) -> A,
) -> Map<Seq<char>, A> {
    Map::new(
        |k: Seq<char>| a.contains_key(k) || b.contains_key(k),
        |k: Seq<char>|
            if b.contains_key(k) {
                g(entry(a, k), b[k])
            } else {
                a[k]
            },
    )
}

/// `a` with the entries of the first `n` keys of `b` merged in.
pub open spec fn merged_upto<A, B>(
    a: Map<Seq<char>, A>,
    b: Map<Seq<char>, B>,
    keys: Seq<Seq<char>>,
    n: int,
    g: spec_fn(Option<A>, B) -> A,
) -> Map<Seq<char>, A> {
    Map::new(
        |k: Seq<char>| a.contains_key(k) || keys.take(n).contains(k),
        |k: Seq<char>|
            if keys.take(n).contains(k) {
                g(entry(a, k), b[k])
            } else {
                a[k]
            },
    )
}

/// Going on by one key merges one more entry.
pub proof fn lemma_merged_step<A, B>(
    a: Map<Seq<char>, A>,
    b: Map<Seq<char>, B>,
    keys: Seq<Seq<char>>,
    n: int,
    g: spec_fn(Option<A>, B) -> A,
)
    requires
        0 <= n < keys.len(),
        keys.no_duplicates(),
    ensures
        entry(merged_upto(a, b, keys, n, g), keys[n]) == entry(a, keys[n]),
        merged_upto(a, b, keys, n + 1, g) == merged_upto(a, b, keys, n, g).insert(
            keys[n],
            g(entry(a, keys[n]), b[keys[n]]),
        ),
{
    let then = keys.take(n);
    let now = keys.take(n + 1);
    assert(!then.contains(keys[n])) by {
        if then.contains(keys[n]) {
            let i = then.index_of(keys[n]);
            assert(keys[i] == keys[n]);
        }
    }
    assert forall|k: Seq<char>| #[trigger] now.contains(k) <==> (then.contains(k) || k
        == keys[n]) by {
        assert(now[n] == keys[n]);
        if then.contains(k) {
            assert(now[then.index_of(k)] == k);
        }
        if now.contains(k) && k != keys[n] {
            assert(then[now.index_of(k)] == k);
        }
    }
    assert(merged_upto(a, b, keys, n + 1, g) =~= merged_upto(a, b, keys, n, g).insert(
        keys[n],
        g(entry(a, keys[n]), b[keys[n]]),
    ));
}

/// Before the first key nothing is merged, after the last key everything is.
pub proof fn lemma_merged_ends<A, B>(
    a: Map<Seq<char>, A>,
    b: Map<Seq<char>, B>,
    keys: Seq<Seq<char>>,
    g: spec_fn(Option<A>, B) -> A,
)
    requires
        forall|k: Seq<char>| #[trigger] b.contains_key(k) <==> keys.contains(k),
    ensures
        merged_upto(a, b, keys, 0, g) == a,
        merged_upto(a, b, keys, keys.len() as int, g) == merged(a, b, g),
{
    assert(keys.take(0) =~= Seq::<Seq<char>>::empty());
    assert(merged_upto(a, b, keys, 0, g) =~= a);
    assert(keys.take(keys.len() as int) =~= keys);
    assert(merged_upto(a, b, keys, keys.len() as int, g) =~= merged(a, b, g));
}

} // verus!
