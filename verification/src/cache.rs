//! A cache and locks.
//!
//! * [`CacheStore`]: a binary-safe store of values with expiry and atomic
//!   increment.
//! * [`LockStore`]: locks with an owner, expiry and renewal.
//!
//! Semantics mirror Redis where it matters (the time to live is `-2` for a
//! missing key and `-1` for a key without expiry; acquiring a lock is `SET NX`).
//! Deadlines are RFC 3339 text; whether one has passed is decided on the text
//! where entries are swept, and on the time that it names where one is read.
use vstd::prelude::*;
use vstd::string::*;

use crate::clock;
use crate::clock::UtcTime;
use crate::number;
use crate::table::TextMap;
use crate::text;

verus! {

pub const TYPE_STRING: &'static str = "string";

pub const TYPE_LONG: &'static str = "long";

// ----------------------------------------------------------------- deadlines

/// The deadline of an entry that lives `ttl_secs` from now; none where that is
/// not positive.
pub open spec fn deadline_in(ttl_secs: i64, now: UtcTime) -> Option<Seq<char>> {
    if ttl_secs <= 0 {
        None
    } else {
        Some(clock::time_text(clock::time_after(now, ttl_secs as int)))
    }
}

/// Whether the text of a deadline, if there is one, stands for its time.
pub open spec fn deadline_faithful(ttl_secs: i64, now: UtcTime) -> bool {
    ttl_secs > 0 ==> clock::faithful(clock::time_after(now, ttl_secs as int))
}

fn expire_at(ttl_secs: i64, now: UtcTime) -> (r: Option<String>)
    requires
        now.valid(),
    ensures
        text::opt_text(r) == deadline_in(ttl_secs, now),
        deadline_faithful(ttl_secs, now),
{
    if ttl_secs <= 0 {
        None
    } else {
        Some(clock::text_of(clock::after(now, ttl_secs)))
    }
}

/// Whether one time is not after another.
pub open spec fn not_after(secs: i64, nanos: u32, now: UtcTime) -> bool {
    secs < now.secs || (secs == now.secs && nanos <= now.nanos)
}

/// Whether a deadline has passed. One that names no time has.
pub open spec fn passed(deadline: Option<Seq<char>>, now: UtcTime) -> bool {
    match deadline {
        None => false,
        Some(raw) => match clock::instant_of(raw) {
            Some((secs, nanos)) => not_after(secs, nanos, now),
            None => true,
        },
    }
}

fn is_expired(deadline: Option<&str>, now: UtcTime) -> (r: bool)
    ensures
        r == passed(text::opt_str(deadline), now),
{
    match deadline {
        None => false,
        Some(raw) => match clock::parse_rfc3339(raw) {
            Some(time) => time.secs < now.secs || (time.secs == now.secs && time.nanos
                <= now.nanos),
            None => true,
        },
    }
}

/// Whether a deadline is swept away at the time `now`.
pub open spec fn swept(deadline: Option<Seq<char>>, now: Seq<char>) -> bool {
    match deadline {
        None => false,
        Some(raw) => !text::text_less(now, raw),
    }
}

fn is_swept(deadline: Option<&str>, now: &str) -> (r: bool)
    ensures
        r == swept(text::opt_str(deadline), now@),
{
    match deadline {
        None => false,
        Some(raw) => !text::less(now, raw),
    }
}

fn as_slice(value: &Option<String>) -> (r: Option<&str>)
    ensures
        text::opt_str(r) == text::opt_text(*value),
{
    match value {
        Some(v) => Some(v.as_str()),
        None => None,
    }
}

/// Something with a deadline.
pub trait Expiring: View + Sized {
    spec fn deadline(entry: Self::V) -> Option<Seq<char>>;

    /// Whether it is swept away at the time `now`.
    fn lapsed(&self, now: &str) -> (r: bool)
        ensures
            r == swept(Self::deadline(self@), now@),
    ;
}

/// The entries that are not swept.
pub open spec fn unswept<E: Expiring>(entries: Map<Seq<char>, E::V>, now: Seq<char>) -> Map<
    Seq<char>,
    E::V,
> {
    Map::new(
        |k: Seq<char>| entries.contains_key(k) && !swept(E::deadline(entries[k]), now),
        |k: Seq<char>| entries[k],
    )
}

/// Deletes the entries whose deadline has passed, and counts them.
fn sweep<E: Expiring>(entries: &mut TextMap<E>, now: &str) -> (r: u64)
    ensures
        final(entries)@ == unswept::<E>(old(entries)@, now@),
        r == old(entries)@.dom().len() - final(entries)@.dom().len(),
{
    let ghost before = entries@;
    let names: Vec<String> = entries.sorted_keys();
    let ghost all = text::texts(names@);
    let n: usize = entries.len();
    let mut gone: u64 = 0;
    let mut i: usize = 0;
    proof {
        assert(all.take(0) =~= Seq::<Seq<char>>::empty());
    }
    while i < names.len()
        invariant
            i <= names@.len(),
            before == old(entries)@,
            all == text::texts(names@),
            text::ascending(all),
            forall|k: Seq<char>| #[trigger] all.contains(k) <==> before.contains_key(k),
            forall|k: Seq<char>| #[trigger]
                entries@.contains_key(k) <==> before.contains_key(k) && !(all.take(
                    i as int,
                ).contains(k) && swept(E::deadline(before[k]), now@)),
            forall|k: Seq<char>| #[trigger] entries@.contains_key(k) ==> entries@[k] == before[k],
            gone <= i,
            gone + entries@.dom().len() == before.dom().len(),
        decreases names.len() - i,
    {
        let ghost name = all[i as int];
        let ghost then = entries@;
        proof {
            text::lemma_take_grows(all, i as int);
            assert(name == names@[i as int]@);
            assert(all.contains(name));
            assert(!all.take(i as int).contains(name)) by {
                if all.take(i as int).contains(name) {
                    let x = all.take(i as int).index_of(name);
                    assert(text::text_less(all[x], all[i as int]));
                    text::lemma_text_less_order(name, name, name);
                }
            }
        }
        let over: bool = match entries.get(names[i].as_str()) {
            Some(entry) => entry.lapsed(now),
            None => false,
        };
        if over {
            let m: usize = entries.len();
            entries.take(names[i].as_str());
            proof {
                assert(then.dom().contains(name));
                assert(entries@.dom() =~= then.dom().remove(name));
            }
            gone = gone + 1;
        }
        i = i + 1;
    }
    proof {
        assert(all.take(all.len() as int) =~= all);
        assert(entries@ =~= unswept::<E>(before, now@));
    }
    gone
}

// --------------------------------------------------------------------- cache

pub struct CacheEntry {
    pub value: Vec<u8>,
    pub value_type: String,
    pub expire_at: Option<String>,
    pub update_time: String,
}

#[verifier::ext_equal]
pub struct CacheView {
    pub value: Seq<u8>,
    pub value_type: Seq<char>,
    pub expire_at: Option<Seq<char>>,
    pub update_time: Seq<char>,
}

impl View for CacheEntry {
    type V = CacheView;

    open spec fn view(&self) -> CacheView {
        CacheView {
            value: self.value@,
            value_type: self.value_type@,
            expire_at: text::opt_text(self.expire_at),
            update_time: self.update_time@,
        }
    }
}

impl Expiring for CacheEntry {
    open spec fn deadline(entry: CacheView) -> Option<Seq<char>> {
        entry.expire_at
    }

    fn lapsed(&self, now: &str) -> (r: bool) {
        is_swept(as_slice(&self.expire_at), now)
    }
}

/// The entries of a cache, by key.
pub type Entries = Map<Seq<char>, CacheView>;

/// Values under keys, with expiry.
pub struct CacheStore {
    entries: TextMap<CacheEntry>,
}

impl View for CacheStore {
    type V = Entries;

    closed spec fn view(&self) -> Entries {
        self.entries@
    }
}

/// The type of a value; `string` where none is told.
pub open spec fn kind_of(value_type: Seq<char>) -> Seq<char> {
    if text::trimmed(value_type).len() == 0 {
        TYPE_STRING@
    } else {
        text::trimmed(value_type)
    }
}

fn normalize_value_type(value_type: &str) -> (r: &str)
    ensures
        r@ == kind_of(value_type@),
{
    let value_type: &str = text::trim(value_type);
    if value_type.is_empty() {
        TYPE_STRING
    } else {
        value_type
    }
}

/// A cache in which a value was stored.
pub open spec fn value_set(
    entries: Entries,
    key: Seq<char>,
    value: Seq<u8>,
    value_type: Seq<char>,
    ttl_secs: i64,
    now: UtcTime,
) -> Entries {
    entries.insert(
        key,
        CacheView {
            value,
            value_type: kind_of(value_type),
            expire_at: deadline_in(ttl_secs, now),
            update_time: clock::time_text(now),
        },
    )
}

/// A value was stored under a key.
pub open spec fn value_stored(
    before: Entries,
    after: Entries,
    key: Seq<char>,
    value: Seq<u8>,
    value_type: Seq<char>,
    ttl_secs: i64,
    now: UtcTime,
) -> bool {
    &&& after == value_set(before, key, value, value_type, ttl_secs, now)
    &&& deadline_faithful(ttl_secs, now)
}

/// A deadline was set for a key, where the key was there.
pub open spec fn deadline_set(
    before: Entries,
    after: Entries,
    key: Seq<char>,
    ttl_secs: i64,
    now: UtcTime,
    known: bool,
) -> bool {
    &&& known == before.contains_key(key)
    &&& if known {
        &&& after == before.insert(
            key,
            CacheView { expire_at: deadline_in(ttl_secs, now), ..before[key] },
        )
        &&& deadline_faithful(ttl_secs, now)
    } else {
        after == before
    }
}

/// The value and the type under a key, where it has not expired.
pub open spec fn value_in(entries: Entries, key: Seq<char>, now: UtcTime) -> Option<
    (Seq<u8>, Seq<char>),
> {
    if entries.contains_key(key) && !passed(entries[key].expire_at, now) {
        Some((entries[key].value, entries[key].value_type))
    } else {
        None
    }
}

/// A cache without the entry under a key, where it has expired.
pub open spec fn looked_at(entries: Entries, key: Seq<char>, now: UtcTime) -> Entries {
    if entries.contains_key(key) && passed(entries[key].expire_at, now) {
        entries.remove(key)
    } else {
        entries
    }
}

pub open spec fn value_view(r: Option<(Vec<u8>, String)>) -> Option<(Seq<u8>, Seq<char>)> {
    match r {
        Some((value, value_type)) => Some((value@, value_type@)),
        None => None,
    }
}

/// A cache without the entry under a key, where it is swept.
pub open spec fn entry_swept(entries: Entries, key: Seq<char>, now: Seq<char>) -> Entries {
    if entries.contains_key(key) && swept(entries[key].expire_at, now) {
        entries.remove(key)
    } else {
        entries
    }
}

/// The number under a key: zero where there is none.
pub open spec fn number_in(entries: Entries, key: Seq<char>) -> i64 {
    if entries.contains_key(key) {
        number::leading_integer(entries[key].value)
    } else {
        0
    }
}

/// The value under a key is not a number that can be added to.
#[derive(Debug, Clone, Copy, PartialEq, Eq, Structural)]
pub struct NotANumber;

/// A number was added to the value under a key. A key that is not there is
/// created, and only then the time to live counts. A sum that no 64-bit number
/// can hold is refused.
pub open spec fn incremented(
    before: Entries,
    after: Entries,
    key: Seq<char>,
    delta: i64,
    ttl_secs: i64,
    now: UtcTime,
    r: Result<i64, NotANumber>,
) -> bool {
    let mid = entry_swept(before, key, clock::time_text(now));
    let sum = number_in(mid, key) + delta;
    if i64::MIN <= sum <= i64::MAX {
        &&& r == Ok::<i64, NotANumber>(sum as i64)
        &&& after == mid.insert(
            key,
            CacheView {
                value: number::decimal(sum),
                value_type: TYPE_LONG@,
                expire_at: if mid.contains_key(key) {
                    mid[key].expire_at
                } else {
                    deadline_in(ttl_secs, now)
                },
                update_time: clock::time_text(now),
            },
        )
        &&& mid.contains_key(key) || deadline_faithful(ttl_secs, now)
    } else {
        &&& r == Err::<i64, NotANumber>(NotANumber)
        &&& after == mid
    }
}

/// Nanoseconds from a time to a deadline.
pub open spec fn nanos_until(secs: i64, nanos: u32, now: UtcTime) -> int {
    (secs - now.secs) * 1_000_000_000 + (nanos - now.nanos)
}

/// The seconds that a key has left: `-2` where it is missing or less than a
/// millisecond is left, `-1` where it has no deadline.
pub open spec fn seconds_left(entries: Entries, key: Seq<char>, now: UtcTime) -> int {
    if !entries.contains_key(key) {
        -2
    } else {
        match entries[key].expire_at {
            None => -1,
            Some(raw) => match clock::instant_of(raw) {
                None => -2,
                Some((secs, nanos)) => if nanos_until(secs, nanos, now) < 1_000_000 {
                    -2
                } else {
                    nanos_until(secs, nanos, now) / 1_000_000_000
                },
            },
        }
    }
}

/// A cache without the entry under a key, where less than a millisecond is left.
pub open spec fn ttl_looked_at(entries: Entries, key: Seq<char>, now: UtcTime) -> Entries {
    if entries.contains_key(key) && (entries[key].expire_at matches Some(raw)
        && clock::instant_of(raw) matches Some(at) && nanos_until(at.0, at.1, now) < 1_000_000) {
        entries.remove(key)
    } else {
        entries
    }
}

impl CacheStore {
    pub fn new() -> (r: Self)
        ensures
            r@ == Entries::empty(),
    {
        CacheStore { entries: TextMap::new() }
    }

    /// The entries, by key.
    pub fn entries(&self) -> (r: &TextMap<CacheEntry>)
        ensures
            r@ == self@,
    {
        &self.entries
    }

    /// Keeps an entry as it was stored.
    pub fn load(&mut self, key: String, entry: CacheEntry)
        ensures
            final(self)@ == old(self)@.insert(key@, entry@),
    {
        self.entries.set(key, entry);
    }

    /// Stores `value` under `key` with an optional type hint at the time `now`.
    /// `ttl_secs <= 0` means no expiry.
    pub fn set_at(
        &mut self,
        key: &str,
        value: Vec<u8>,
        value_type: &str,
        ttl_secs: i64,
        now: UtcTime,
    )
        requires
            now.valid(),
        ensures
            value_stored(
                old(self)@,
                final(self)@,
                key@,
                value@,
                value_type@,
                ttl_secs,
                now,
            ),
    {
        let entry: CacheEntry = CacheEntry {
            value,
            value_type: normalize_value_type(value_type).to_string(),
            expire_at: expire_at(ttl_secs, now),
            update_time: clock::text_of(now),
        };
        self.entries.set(key.to_string(), entry);
    }

    /// Stores `value` under `key` with an optional type hint. `ttl_secs <= 0`
    /// means no expiry.
    pub fn set(&mut self, key: &str, value: Vec<u8>, value_type: &str, ttl_secs: i64)
        ensures
            exists|now: UtcTime|
                now.valid() && #[trigger] value_stored(
                    old(self)@,
                    final(self)@,
                    key@,
                    value@,
                    value_type@,
                    ttl_secs,
                    now,
                ),
    {
        self.set_at(key, value, value_type, ttl_secs, clock::now());
    }

    /// Reads a value and its type hint at the time `now`, deleting an expired
    /// entry.
    pub fn get_at(&mut self, key: &str, now: UtcTime) -> (r: Option<(Vec<u8>, String)>)
        ensures
            value_view(r) == value_in(old(self)@, key@, now),
            final(self)@ == looked_at(old(self)@, key@, now),
    {
        let gone: bool = match self.entries.get(key) {
            None => {
                return None;
            },
            Some(entry) => is_expired(as_slice(&entry.expire_at), now),
        };
        if gone {
            self.entries.take(key);
            return None;
        }
        match self.entries.get(key) {
            Some(entry) => {
                let value: Vec<u8> = entry.value.clone();
                proof {
                    assert(value@ =~= entry.value@);
                }
                Some((value, entry.value_type.clone()))
            },
            None => None,
        }
    }

    /// Reads a value and its type hint, deleting an expired entry.
    pub fn get(&mut self, key: &str) -> (r: Option<(Vec<u8>, String)>)
        ensures
            exists|now: UtcTime|
                now.valid() && value_view(r) == #[trigger] value_in(old(self)@, key@, now)
                    && final(self)@ == looked_at(old(self)@, key@, now),
    {
        self.get_at(key, clock::now())
    }

    /// Deletes a key; says whether it was there.
    pub fn delete(&mut self, key: &str) -> (r: bool)
        ensures
            final(self)@ == old(self)@.remove(key@),
            r == old(self)@.contains_key(key@),
    {
        self.entries.take(key).is_some()
    }

    /// Adds `delta` to the value of `key` at the time `now`, creating it with
    /// `ttl_secs` (applied only on creation) when it does not exist.
    pub fn incr_at(&mut self, key: &str, delta: i64, ttl_secs: i64, now: UtcTime) -> (r: Result<
        i64,
        NotANumber,
    >)
        requires
            now.valid(),
        ensures
            incremented(old(self)@, final(self)@, key@, delta, ttl_secs, now, r),
    {
        let at: String = clock::text_of(now);
        let gone: bool = match self.entries.get(key) {
            Some(entry) => is_swept(as_slice(&entry.expire_at), at.as_str()),
            None => false,
        };
        if gone {
            self.entries.take(key);
        }
        let ghost mid = self@;
        let (number, deadline): (i64, Option<String>) = match self.entries.get(key) {
            Some(entry) => (number::read_leading_integer(&entry.value), match &entry.expire_at {
                Some(raw) => Some(raw.clone()),
                None => None,
            }),
            None => (0, expire_at(ttl_secs, now)),
        };
        match number.checked_add(delta) {
            Some(sum) => {
                let entry: CacheEntry = CacheEntry {
                    value: number::decimal_bytes(sum),
                    value_type: TYPE_LONG.to_string(),
                    expire_at: deadline,
                    update_time: at,
                };
                self.entries.set(key.to_string(), entry);
                Ok(sum)
            },
            None => Err(NotANumber),
        }
    }

    /// Adds `delta` to the value of `key`, creating it with `ttl_secs` (applied
    /// only on creation) when it does not exist.
    pub fn incr(&mut self, key: &str, delta: i64, ttl_secs: i64) -> (r: Result<i64, NotANumber>)
        ensures
            exists|now: UtcTime|
                now.valid() && #[trigger] incremented(
                    old(self)@,
                    final(self)@,
                    key@,
                    delta,
                    ttl_secs,
                    now,
                    r,
                ),
    {
        self.incr_at(key, delta, ttl_secs, clock::now())
    }

    /// Sets the deadline of an existing key at the time `now`. Returns false when
    /// the key is absent.
    pub fn expire_from(&mut self, key: &str, ttl_secs: i64, now: UtcTime) -> (r: bool)
        requires
            now.valid(),
        ensures
            deadline_set(old(self)@, final(self)@, key@, ttl_secs, now, r),
    {
        let ghost before = self@;
        match self.entries.take(key) {
            Some(entry) => {
                let next: CacheEntry = CacheEntry { expire_at: expire_at(ttl_secs, now), ..entry };
                let ghost v = next@;
                self.entries.set(key.to_string(), next);
                proof {
                    assert(before.remove(key@).insert(key@, v) =~= before.insert(key@, v));
                }
                true
            },
            None => {
                proof {
                    assert(before.remove(key@) =~= before);
                }
                false
            },
        }
    }

    /// Sets the deadline of an existing key. Returns false when the key is absent.
    pub fn expire(&mut self, key: &str, ttl_secs: i64) -> (r: bool)
        ensures
            exists|now: UtcTime|
                now.valid() && #[trigger] deadline_set(
                    old(self)@,
                    final(self)@,
                    key@,
                    ttl_secs,
                    now,
                    r,
                ),
    {
        self.expire_from(key, ttl_secs, clock::now())
    }

    /// Redis-style time to live at the time `now`: `-2` missing, `-1` no expiry,
    /// otherwise seconds left. Deletes an expired entry.
    pub fn ttl_at(&mut self, key: &str, now: UtcTime) -> (r: i64)
        requires
            now.valid(),
        ensures
            r == seconds_left(old(self)@, key@, now),
            final(self)@ == ttl_looked_at(old(self)@, key@, now),
    {
        let deadline: UtcTime = match self.entries.get(key) {
            None => {
                return -2;
            },
            Some(entry) => match &entry.expire_at {
                None => {
                    return -1;
                },
                Some(raw) => match clock::parse_rfc3339(raw.as_str()) {
                    Some(time) => time,
                    None => {
                        return -2;
                    },
                },
            },
        };
        let left: i128 = (deadline.secs as i128 - now.secs as i128) * 1_000_000_000 + (
        deadline.nanos as i128 - now.nanos as i128);
        if left < 1_000_000 {
            self.entries.take(key);
            return -2;
        }
        (left / 1_000_000_000) as i64
    }

    /// Redis-style time to live: `-2` missing, `-1` no expiry, otherwise seconds
    /// left. Deletes an expired entry.
    pub fn ttl(&mut self, key: &str) -> (r: i64)
        ensures
            exists|now: UtcTime|
                now.valid() && r == #[trigger] seconds_left(old(self)@, key@, now) && final(self)@
                    == ttl_looked_at(old(self)@, key@, now),
    {
        self.ttl_at(key, clock::now())
    }

    /// Whether the key exists and has not expired at the time `now`.
    pub fn is_present_at(&mut self, key: &str, now: UtcTime) -> (r: bool)
        requires
            now.valid(),
        ensures
            r == (seconds_left(old(self)@, key@, now) != -2),
            final(self)@ == ttl_looked_at(old(self)@, key@, now),
    {
        self.ttl_at(key, now) != -2
    }

    /// Whether the key exists and has not expired.
    pub fn is_present(&mut self, key: &str) -> (r: bool)
        ensures
            exists|now: UtcTime|
                now.valid() && r == (#[trigger] seconds_left(old(self)@, key@, now) != -2)
                    && final(self)@ == ttl_looked_at(old(self)@, key@, now),
    {
        self.is_present_at(key, clock::now())
    }

    /// Deletes expired keys at the time `now`. Returns the number of keys deleted.
    pub fn purge_expired_at(&mut self, now: &str) -> (r: u64)
        ensures
            final(self)@ == unswept::<CacheEntry>(old(self)@, now@),
            r == old(self)@.dom().len() - final(self)@.dom().len(),
    {
        sweep(&mut self.entries, now)
    }

    /// Deletes expired keys. Returns the number of keys deleted.
    pub fn purge_expired(&mut self) -> (r: u64)
        ensures
            exists|now: UtcTime|
                now.valid() && clock::faithful(now) && final(self)@ == unswept::<CacheEntry>(
                    old(self)@,
                    #[trigger] clock::time_text(now),
                ),
            r == old(self)@.dom().len() - final(self)@.dom().len(),
    {
        let now: String = clock::text_of(clock::now());
        self.purge_expired_at(now.as_str())
    }
}

// --------------------------------------------------------------------- locks

pub struct LockEntry {
    pub owner: String,
    pub expire_at: String,
    pub create_time: String,
}

#[verifier::ext_equal]
pub struct LockView {
    pub owner: Seq<char>,
    pub expire_at: Seq<char>,
    pub create_time: Seq<char>,
}

impl View for LockEntry {
    type V = LockView;

    open spec fn view(&self) -> LockView {
        LockView {
            owner: self.owner@,
            expire_at: self.expire_at@,
            create_time: self.create_time@,
        }
    }
}

impl Expiring for LockEntry {
    open spec fn deadline(entry: LockView) -> Option<Seq<char>> {
        Some(entry.expire_at)
    }

    fn lapsed(&self, now: &str) -> (r: bool) {
        is_swept(Some(self.expire_at.as_str()), now)
    }
}

/// The locks, by key.
pub type Locks = Map<Seq<char>, LockView>;

/// Locks with an owner and a deadline.
pub struct LockStore {
    locks: TextMap<LockEntry>,
}

impl View for LockStore {
    type V = Locks;

    closed spec fn view(&self) -> Locks {
        self.locks@
    }
}

/// The deadline of a lock that is held `ttl_secs` from now.
pub open spec fn lease_until(ttl_secs: i64, now: UtcTime) -> Seq<char> {
    clock::time_text(clock::time_after(now, ttl_secs as int))
}

/// Whether a lock can be acquired: nobody has it, or its deadline has passed.
pub open spec fn free(locks: Locks, key: Seq<char>, now: Seq<char>) -> bool {
    !locks.contains_key(key) || swept(Some(locks[key].expire_at), now)
}

/// The locks after an attempt to acquire one.
pub open spec fn acquired(
    locks: Locks,
    key: Seq<char>,
    owner: Seq<char>,
    ttl_secs: i64,
    now: UtcTime,
) -> Locks {
    if free(locks, key, clock::time_text(now)) {
        locks.insert(
            key,
            LockView {
                owner,
                expire_at: lease_until(ttl_secs, now),
                create_time: clock::time_text(now),
            },
        )
    } else {
        locks
    }
}

/// Whether a lock is held by an owner.
pub open spec fn owned(locks: Locks, key: Seq<char>, owner: Seq<char>) -> bool {
    locks.contains_key(key) && locks[key].owner == owner
}

/// The locks after an attempt to extend one.
pub open spec fn renewed(
    locks: Locks,
    key: Seq<char>,
    owner: Seq<char>,
    ttl_secs: i64,
    now: UtcTime,
) -> Locks {
    if owned(locks, key, owner) {
        locks.insert(key, LockView { expire_at: lease_until(ttl_secs, now), ..locks[key] })
    } else {
        locks
    }
}

/// Somebody tried to acquire a lock.
pub open spec fn lock_tried(
    before: Locks,
    after: Locks,
    key: Seq<char>,
    owner: Seq<char>,
    ttl_secs: i64,
    now: UtcTime,
    got: bool,
) -> bool {
    &&& got == free(before, key, clock::time_text(now))
    &&& after == acquired(before, key, owner, ttl_secs, now)
    &&& clock::faithful(now)
    &&& got ==> clock::faithful(clock::time_after(now, ttl_secs as int))
}

/// Somebody tried to extend a lock.
pub open spec fn lock_extended(
    before: Locks,
    after: Locks,
    key: Seq<char>,
    owner: Seq<char>,
    ttl_secs: i64,
    now: UtcTime,
    got: bool,
) -> bool {
    &&& got == owned(before, key, owner)
    &&& after == renewed(before, key, owner, ttl_secs, now)
    &&& got ==> clock::faithful(clock::time_after(now, ttl_secs as int))
}

/// The locks after an attempt to release one.
pub open spec fn released(locks: Locks, key: Seq<char>, owner: Seq<char>) -> Locks {
    if owned(locks, key, owner) {
        locks.remove(key)
    } else {
        locks
    }
}

/// Whether a lock is held and its deadline has not passed.
pub open spec fn locked(locks: Locks, key: Seq<char>, now: UtcTime) -> bool {
    locks.contains_key(key) && !passed(Some(locks[key].expire_at), now)
}

impl LockStore {
    pub fn new() -> (r: Self)
        ensures
            r@ == Locks::empty(),
    {
        LockStore { locks: TextMap::new() }
    }

    /// The locks, by key.
    pub fn locks(&self) -> (r: &TextMap<LockEntry>)
        ensures
            r@ == self@,
    {
        &self.locks
    }

    /// Keeps a lock as it was stored.
    pub fn load(&mut self, lock_key: String, entry: LockEntry)
        ensures
            final(self)@ == old(self)@.insert(lock_key@, entry@),
    {
        self.locks.set(lock_key, entry);
    }

    /// Tries to acquire `lock_key` for `owner` with a `ttl_secs` lease at the time
    /// `now`.
    pub fn acquire_at(&mut self, lock_key: &str, owner: &str, ttl_secs: i64, now: UtcTime) -> (r:
        bool)
        requires
            now.valid(),
        ensures
            lock_tried(old(self)@, final(self)@, lock_key@, owner@, ttl_secs, now, r),
    {
        let at: String = clock::text_of(now);
        let taken: bool = match self.locks.get(lock_key) {
            Some(entry) => !is_swept(Some(entry.expire_at.as_str()), at.as_str()),
            None => false,
        };
        if taken {
            return false;
        }
        let entry: LockEntry = LockEntry {
            owner: owner.to_string(),
            expire_at: clock::text_of(clock::after(now, ttl_secs)),
            create_time: at,
        };
        self.locks.set(lock_key.to_string(), entry);
        true
    }

    /// Tries to acquire `lock_key` for `owner` with a `ttl_secs` lease.
    pub fn acquire(&mut self, lock_key: &str, owner: &str, ttl_secs: i64) -> (r: bool)
        ensures
            exists|now: UtcTime|
                now.valid() && #[trigger] lock_tried(
                    old(self)@,
                    final(self)@,
                    lock_key@,
                    owner@,
                    ttl_secs,
                    now,
                    r,
                ),
    {
        self.acquire_at(lock_key, owner, ttl_secs, clock::now())
    }

    /// Extends the lease of a lock held by `owner` at the time `now`.
    pub fn renew_at(&mut self, lock_key: &str, owner: &str, ttl_secs: i64, now: UtcTime) -> (r:
        bool)
        requires
            now.valid(),
        ensures
            lock_extended(old(self)@, final(self)@, lock_key@, owner@, ttl_secs, now, r),
    {
        let ghost before = self@;
        let mine: bool = match self.locks.get(lock_key) {
            Some(entry) => text::text_eq(entry.owner.as_str(), owner),
            None => false,
        };
        if !mine {
            return false;
        }
        match self.locks.take(lock_key) {
            Some(entry) => {
                let next: LockEntry = LockEntry {
                    expire_at: clock::text_of(clock::after(now, ttl_secs)),
                    ..entry
                };
                let ghost v = next@;
                self.locks.set(lock_key.to_string(), next);
                proof {
                    assert(before.remove(lock_key@).insert(lock_key@, v) =~= before.insert(
                        lock_key@,
                        v,
                    ));
                }
                true
            },
            None => false,
        }
    }

    /// Extends the lease of a lock held by `owner`.
    pub fn renew(&mut self, lock_key: &str, owner: &str, ttl_secs: i64) -> (r: bool)
        ensures
            exists|now: UtcTime|
                now.valid() && #[trigger] lock_extended(
                    old(self)@,
                    final(self)@,
                    lock_key@,
                    owner@,
                    ttl_secs,
                    now,
                    r,
                ),
    {
        self.renew_at(lock_key, owner, ttl_secs, clock::now())
    }

    /// Releases a lock only if it is still held by `owner`.
    pub fn release(&mut self, lock_key: &str, owner: &str) -> (r: bool)
        ensures
            r == owned(old(self)@, lock_key@, owner@),
            final(self)@ == released(old(self)@, lock_key@, owner@),
    {
        let mine: bool = match self.locks.get(lock_key) {
            Some(entry) => text::text_eq(entry.owner.as_str(), owner),
            None => false,
        };
        if mine {
            self.locks.take(lock_key);
        }
        mine
    }

    /// Whether a lock is held at the time `now`.
    pub fn is_locked_at(&self, lock_key: &str, now: UtcTime) -> (r: bool)
        ensures
            r == locked(self@, lock_key@, now),
    {
        match self.locks.get(lock_key) {
            Some(entry) => !is_expired(Some(entry.expire_at.as_str()), now),
            None => false,
        }
    }

    /// Whether a lock is held.
    pub fn is_locked(&self, lock_key: &str) -> (r: bool)
        ensures
            exists|now: UtcTime| now.valid() && r == #[trigger] locked(self@, lock_key@, now),
    {
        self.is_locked_at(lock_key, clock::now())
    }

    /// Deletes expired locks at the time `now`. Returns the number of locks
    /// deleted.
    pub fn purge_expired_at(&mut self, now: &str) -> (r: u64)
        ensures
            final(self)@ == unswept::<LockEntry>(old(self)@, now@),
            r == old(self)@.dom().len() - final(self)@.dom().len(),
    {
        sweep(&mut self.locks, now)
    }

    /// Deletes expired locks. Returns the number of locks deleted.
    pub fn purge_expired(&mut self) -> (r: u64)
        ensures
            exists|now: UtcTime|
                now.valid() && clock::faithful(now) && final(self)@ == unswept::<LockEntry>(
                    old(self)@,
                    #[trigger] clock::time_text(now),
                ),
            r == old(self)@.dom().len() - final(self)@.dom().len(),
    {
        let now: String = clock::text_of(clock::now());
        self.purge_expired_at(now.as_str())
    }
}

// ------------------------------------------------------------------- requests

/// Why a request to the cache or to a lock is refused.
#[derive(Debug, Clone, Copy, PartialEq, Eq, Structural)]
pub enum BadRequest {
    Key,
    Owner,
    Ttl,
}

impl BadRequest {
    /// What the caller is told.
    pub fn message(&self) -> (r: &'static str)
        ensures
            r@ == (match *self {
                BadRequest::Key => "key is required"@,
                BadRequest::Owner => "owner is required"@,
                BadRequest::Ttl => "ttl_seconds must be > 0"@,
            }),
    {
        match self {
            BadRequest::Key => "key is required",
            BadRequest::Owner => "owner is required",
            BadRequest::Ttl => "ttl_seconds must be > 0",
        }
    }
}

/// The key of a request, without the white space around it.
pub fn require_key(value: &str) -> (r: Result<&str, BadRequest>)
    ensures
        match r {
            Ok(key) => key@ == text::trimmed(value@) && key@.len() > 0,
            Err(fault) => text::trimmed(value@).len() == 0 && fault == BadRequest::Key,
        },
{
    let value: &str = text::trim(value);
    if value.is_empty() {
        Err(BadRequest::Key)
    } else {
        Ok(value)
    }
}

/// The first fault of a request to acquire or renew a lock.
pub open spec fn lock_fault(lock_key: Seq<char>, owner: Seq<char>, ttl_secs: i64) -> Option<
    BadRequest,
> {
    if text::trimmed(lock_key).len() == 0 {
        Some(BadRequest::Key)
    } else if text::trimmed(owner).len() == 0 {
        Some(BadRequest::Owner)
    } else if ttl_secs <= 0 {
        Some(BadRequest::Ttl)
    } else {
        None
    }
}

/// The key and the owner of a request to acquire or renew a lock, without the
/// white space around them.
pub fn require_lock<'a>(lock_key: &'a str, owner: &'a str, ttl_secs: i64) -> (r: Result<
    (&'a str, &'a str),
    BadRequest,
>)
    ensures
        match r {
            Ok((key, name)) => lock_fault(lock_key@, owner@, ttl_secs) is None && key@
                == text::trimmed(lock_key@) && name@ == text::trimmed(owner@),
            Err(fault) => lock_fault(lock_key@, owner@, ttl_secs) == Some(fault),
        },
{
    let key: &str = match require_key(lock_key) {
        Ok(key) => key,
        Err(fault) => {
            return Err(fault);
        },
    };
    let name: &str = text::trim(owner);
    if name.is_empty() {
        return Err(BadRequest::Owner);
    }
    if ttl_secs <= 0 {
        return Err(BadRequest::Ttl);
    }
    Ok((key, name))
}

/// The key and the owner of a request to release a lock, without the white space
/// around them.
pub fn require_owner<'a>(lock_key: &'a str, owner: &'a str) -> (r: Result<
    (&'a str, &'a str),
    BadRequest,
>)
    ensures
        match r {
            Ok((key, name)) => lock_fault(lock_key@, owner@, 1) is None && key@ == text::trimmed(
                lock_key@,
            ) && name@ == text::trimmed(owner@),
            Err(fault) => lock_fault(lock_key@, owner@, 1) == Some(fault),
        },
{
    require_lock(lock_key, owner, 1)
}

// -------------------------------------------------------------------- service

/// Why a request to add to a value failed.
#[derive(Debug, Clone, Copy, PartialEq, Eq, Structural)]
pub enum IncrFault {
    Request(BadRequest),
    NotANumber,
}

/// The cache and the locks behind requests. Keys and owners count without the
/// white space around them.
pub struct CacheService {
    pub cache: CacheStore,
    pub lock: LockStore,
}

impl CacheService {
    pub fn new() -> (r: Self)
        ensures
            r.cache@ == Entries::empty(),
            r.lock@ == Locks::empty(),
    {
        CacheService { cache: CacheStore::new(), lock: LockStore::new() }
    }

    pub fn set_at(
        &mut self,
        key: &str,
        value: Vec<u8>,
        value_type: &str,
        ttl_secs: i64,
        now: UtcTime,
    ) -> (r: Result<(), BadRequest>)
        requires
            now.valid(),
        ensures
            final(self).lock == old(self).lock,
            match r {
                Ok(_) => text::trimmed(key@).len() > 0 && value_stored(
                    old(self).cache@,
                    final(self).cache@,
                    text::trimmed(key@),
                    value@,
                    value_type@,
                    ttl_secs,
                    now,
                ),
                Err(fault) => text::trimmed(key@).len() == 0 && fault == BadRequest::Key
                    && final(self).cache == old(self).cache,
            },
    {
        match require_key(key) {
            Ok(key) => {
                self.cache.set_at(key, value, value_type, ttl_secs, now);
                Ok(())
            },
            Err(fault) => Err(fault),
        }
    }

    pub fn get_at(&mut self, key: &str, now: UtcTime) -> (r: Result<
        Option<(Vec<u8>, String)>,
        BadRequest,
    >)
        ensures
            final(self).lock == old(self).lock,
            match r {
                Ok(found) => text::trimmed(key@).len() > 0 && value_view(found) == value_in(
                    old(self).cache@,
                    text::trimmed(key@),
                    now,
                ) && final(self).cache@ == looked_at(old(self).cache@, text::trimmed(key@), now),
                Err(fault) => text::trimmed(key@).len() == 0 && fault == BadRequest::Key
                    && final(self).cache == old(self).cache,
            },
    {
        match require_key(key) {
            Ok(key) => Ok(self.cache.get_at(key, now)),
            Err(fault) => Err(fault),
        }
    }

    pub fn delete(&mut self, key: &str) -> (r: Result<bool, BadRequest>)
        ensures
            final(self).lock == old(self).lock,
            match r {
                Ok(deleted) => text::trimmed(key@).len() > 0 && deleted
                    == old(self).cache@.contains_key(text::trimmed(key@)) && final(self).cache@
                    == old(self).cache@.remove(text::trimmed(key@)),
                Err(fault) => text::trimmed(key@).len() == 0 && fault == BadRequest::Key
                    && final(self).cache == old(self).cache,
            },
    {
        match require_key(key) {
            Ok(key) => Ok(self.cache.delete(key)),
            Err(fault) => Err(fault),
        }
    }

    pub fn incr_at(&mut self, key: &str, delta: i64, ttl_secs: i64, now: UtcTime) -> (r: Result<
        i64,
        IncrFault,
    >)
        requires
            now.valid(),
        ensures
            final(self).lock == old(self).lock,
            match r {
                Ok(sum) => text::trimmed(key@).len() > 0 && incremented(
                    old(self).cache@,
                    final(self).cache@,
                    text::trimmed(key@),
                    delta,
                    ttl_secs,
                    now,
                    Ok(sum),
                ),
                Err(IncrFault::NotANumber) => text::trimmed(key@).len() > 0 && incremented(
                    old(self).cache@,
                    final(self).cache@,
                    text::trimmed(key@),
                    delta,
                    ttl_secs,
                    now,
                    Err(NotANumber),
                ),
                Err(IncrFault::Request(fault)) => text::trimmed(key@).len() == 0 && fault
                    == BadRequest::Key && final(self).cache == old(self).cache,
            },
    {
        match require_key(key) {
            Ok(key) => match self.cache.incr_at(key, delta, ttl_secs, now) {
                Ok(sum) => Ok(sum),
                Err(_) => Err(IncrFault::NotANumber),
            },
            Err(fault) => Err(IncrFault::Request(fault)),
        }
    }

    pub fn expire_from(&mut self, key: &str, ttl_secs: i64, now: UtcTime) -> (r: Result<
        bool,
        BadRequest,
    >)
        requires
            now.valid(),
        ensures
            final(self).lock == old(self).lock,
            match r {
                Ok(known) => text::trimmed(key@).len() > 0 && deadline_set(
                    old(self).cache@,
                    final(self).cache@,
                    text::trimmed(key@),
                    ttl_secs,
                    now,
                    known,
                ),
                Err(fault) => text::trimmed(key@).len() == 0 && fault == BadRequest::Key
                    && final(self).cache == old(self).cache,
            },
    {
        match require_key(key) {
            Ok(key) => Ok(self.cache.expire_from(key, ttl_secs, now)),
            Err(fault) => Err(fault),
        }
    }

    pub fn ttl_at(&mut self, key: &str, now: UtcTime) -> (r: Result<i64, BadRequest>)
        requires
            now.valid(),
        ensures
            final(self).lock == old(self).lock,
            match r {
                Ok(left) => text::trimmed(key@).len() > 0 && left == seconds_left(
                    old(self).cache@,
                    text::trimmed(key@),
                    now,
                ) && final(self).cache@ == ttl_looked_at(
                    old(self).cache@,
                    text::trimmed(key@),
                    now,
                ),
                Err(fault) => text::trimmed(key@).len() == 0 && fault == BadRequest::Key
                    && final(self).cache == old(self).cache,
            },
    {
        match require_key(key) {
            Ok(key) => Ok(self.cache.ttl_at(key, now)),
            Err(fault) => Err(fault),
        }
    }

    pub fn acquire_lock_at(
        &mut self,
        lock_key: &str,
        owner: &str,
        ttl_secs: i64,
        now: UtcTime,
    ) -> (r: Result<bool, BadRequest>)
        requires
            now.valid(),
        ensures
            final(self).cache == old(self).cache,
            match r {
                Ok(got) => lock_fault(lock_key@, owner@, ttl_secs) is None && lock_tried(
                    old(self).lock@,
                    final(self).lock@,
                    text::trimmed(lock_key@),
                    text::trimmed(owner@),
                    ttl_secs,
                    now,
                    got,
                ),
                Err(fault) => lock_fault(lock_key@, owner@, ttl_secs) == Some(fault)
                    && final(self).lock == old(self).lock,
            },
    {
        match require_lock(lock_key, owner, ttl_secs) {
            Ok((key, name)) => Ok(self.lock.acquire_at(key, name, ttl_secs, now)),
            Err(fault) => Err(fault),
        }
    }

    pub fn renew_lock_at(
        &mut self,
        lock_key: &str,
        owner: &str,
        ttl_secs: i64,
        now: UtcTime,
    ) -> (r: Result<bool, BadRequest>)
        requires
            now.valid(),
        ensures
            final(self).cache == old(self).cache,
            match r {
                Ok(got) => lock_fault(lock_key@, owner@, ttl_secs) is None && lock_extended(
                    old(self).lock@,
                    final(self).lock@,
                    text::trimmed(lock_key@),
                    text::trimmed(owner@),
                    ttl_secs,
                    now,
                    got,
                ),
                Err(fault) => lock_fault(lock_key@, owner@, ttl_secs) == Some(fault)
                    && final(self).lock == old(self).lock,
            },
    {
        match require_lock(lock_key, owner, ttl_secs) {
            Ok((key, name)) => Ok(self.lock.renew_at(key, name, ttl_secs, now)),
            Err(fault) => Err(fault),
        }
    }

    pub fn release_lock(&mut self, lock_key: &str, owner: &str) -> (r: Result<bool, BadRequest>)
        ensures
            final(self).cache == old(self).cache,
            match r {
                Ok(got) => lock_fault(lock_key@, owner@, 1) is None && got == owned(
                    old(self).lock@,
                    text::trimmed(lock_key@),
                    text::trimmed(owner@),
                ) && final(self).lock@ == released(
                    old(self).lock@,
                    text::trimmed(lock_key@),
                    text::trimmed(owner@),
                ),
                Err(fault) => lock_fault(lock_key@, owner@, 1) == Some(fault) && final(self).lock
                    == old(self).lock,
            },
    {
        match require_owner(lock_key, owner) {
            Ok((key, name)) => Ok(self.lock.release(key, name)),
            Err(fault) => Err(fault),
        }
    }
}

// -------------------------------------------------------------------- laws

/// What was stored without expiry is what is read, at any time, and nothing is
/// lost by reading it.
pub proof fn law_a_stored_value_is_read(
    entries: Entries,
    key: Seq<char>,
    value: Seq<u8>,
    value_type: Seq<char>,
    ttl_secs: i64,
    then: UtcTime,
    now: UtcTime,
)
    requires
        ttl_secs <= 0,
    ensures
        ({
            let after = value_set(entries, key, value, value_type, ttl_secs, then);
            &&& value_in(after, key, now) == Some((value, kind_of(value_type)))
            &&& looked_at(after, key, now) == after
            &&& seconds_left(after, key, now) == -1
        }),
{
}

/// Storing under one key touches no other key.
pub proof fn law_storing_spares_other_keys(
    entries: Entries,
    key: Seq<char>,
    other: Seq<char>,
    value: Seq<u8>,
    value_type: Seq<char>,
    ttl_secs: i64,
    then: UtcTime,
    now: UtcTime,
)
    requires
        other != key,
    ensures
        value_in(value_set(entries, key, value, value_type, ttl_secs, then), other, now)
            == value_in(entries, other, now),
{
}

/// A value that was stored for some seconds is read until they have passed, and
/// not afterwards. A sweep deletes it from then on, and no earlier.
pub proof fn law_a_value_lives_for_its_seconds(
    before: Entries,
    after: Entries,
    key: Seq<char>,
    value: Seq<u8>,
    value_type: Seq<char>,
    ttl_secs: i64,
    then: UtcTime,
    now: UtcTime,
)
    requires
        value_stored(before, after, key, value, value_type, ttl_secs, then),
        ttl_secs > 0,
        clock::time_after(then, ttl_secs as int).writable(),
        now.writable(),
    ensures
        ({
            let alive = now.is_before(clock::time_after(then, ttl_secs as int));
            &&& value_in(after, key, now) == (if alive {
                Some((value, kind_of(value_type)))
            } else {
                None
            })
            &&& looked_at(after, key, now) == (if alive {
                after
            } else {
                before.remove(key)
            })
            &&& unswept::<CacheEntry>(after, clock::time_text(now)).contains_key(key) == alive
        }),
{
    assert(after.remove(key) =~= before.remove(key));
}

/// A deadline that was set later counts from when it was set.
pub proof fn law_a_deadline_counts_from_when_it_was_set(
    before: Entries,
    after: Entries,
    key: Seq<char>,
    ttl_secs: i64,
    then: UtcTime,
    now: UtcTime,
)
    requires
        deadline_set(before, after, key, ttl_secs, then, true),
        ttl_secs > 0,
        clock::time_after(then, ttl_secs as int).writable(),
        now.writable(),
    ensures
        ({
            let alive = now.is_before(clock::time_after(then, ttl_secs as int));
            &&& value_in(after, key, now) == (if alive {
                Some((before[key].value, before[key].value_type))
            } else {
                None
            })
            &&& unswept::<CacheEntry>(after, clock::time_text(now)).contains_key(key) == alive
        }),
{
}

/// Adding twice adds the sum, as long as the value has not expired.
pub proof fn law_increments_add_up(
    before: Entries,
    mid: Entries,
    after: Entries,
    key: Seq<char>,
    a: i64,
    b: i64,
    ttl_secs: i64,
    then: UtcTime,
    now: UtcTime,
    first: i64,
    second: i64,
)
    requires
        incremented(before, mid, key, a, ttl_secs, then, Ok(first)),
        incremented(mid, after, key, b, ttl_secs, now, Ok(second)),
        !swept(mid[key].expire_at, clock::time_text(now)),
    ensures
        second == first + b,
        after[key].value == number::decimal(second as int),
        after[key].expire_at == mid[key].expire_at,
{
    number::law_numbers_read_back(first);
}

/// A number that was created with a time to live is added to until its seconds
/// have passed; then it starts anew.
pub proof fn law_a_number_counts_for_its_seconds(
    before: Entries,
    mid: Entries,
    after: Entries,
    key: Seq<char>,
    a: i64,
    b: i64,
    ttl_secs: i64,
    then: UtcTime,
    now: UtcTime,
    first: i64,
    second: i64,
)
    requires
        !before.contains_key(key),
        incremented(before, mid, key, a, ttl_secs, then, Ok(first)),
        incremented(mid, after, key, b, ttl_secs, now, Ok(second)),
        ttl_secs > 0,
        clock::time_after(then, ttl_secs as int).writable(),
        now.writable(),
    ensures
        first == a,
        second == (if now.is_before(clock::time_after(then, ttl_secs as int)) {
            a + b
        } else {
            b as int
        }),
{
    number::law_numbers_read_back(first);
}

/// A lock that one owner holds cannot be acquired, renewed or released by
/// another until its deadline has passed.
pub proof fn law_a_lock_has_one_owner(
    locks: Locks,
    key: Seq<char>,
    owner: Seq<char>,
    other: Seq<char>,
    ttl_secs: i64,
    now: UtcTime,
)
    requires
        owned(locks, key, owner),
        other != owner,
        !swept(Some(locks[key].expire_at), clock::time_text(now)),
    ensures
        acquired(locks, key, other, ttl_secs, now) == locks,
        renewed(locks, key, other, ttl_secs, now) == locks,
        released(locks, key, other) == locks,
{
}

/// Whether an owner holds a lock until a time.
pub open spec fn held_until(
    locks: Locks,
    key: Seq<char>,
    owner: Seq<char>,
    end: UtcTime,
) -> bool {
    &&& owned(locks, key, owner)
    &&& locks[key].expire_at == clock::time_text(end)
    &&& clock::faithful(end)
}

/// Who acquires or extends a lock holds it for the seconds asked for.
pub proof fn law_a_lock_is_held_from_now_on(
    before: Locks,
    after: Locks,
    key: Seq<char>,
    owner: Seq<char>,
    ttl_secs: i64,
    now: UtcTime,
)
    requires
        lock_tried(before, after, key, owner, ttl_secs, now, true) || lock_extended(
            before,
            after,
            key,
            owner,
            ttl_secs,
            now,
            true,
        ),
    ensures
        held_until(after, key, owner, clock::time_after(now, ttl_secs as int)),
{
}

/// A lock that is held until a time is shown as held, and is kept from every
/// other owner and from sweeps, as long as that time has not come. From then on
/// whoever asks for it gets it.
pub proof fn law_a_lock_is_held_until_its_time(
    locks: Locks,
    after: Locks,
    key: Seq<char>,
    owner: Seq<char>,
    end: UtcTime,
    other: Seq<char>,
    ttl_secs: i64,
    now: UtcTime,
    got: bool,
)
    requires
        held_until(locks, key, owner, end),
        lock_tried(locks, after, key, other, ttl_secs, now, got),
        end.writable(),
        now.writable(),
    ensures
        got == !now.is_before(end),
        locked(locks, key, now) == now.is_before(end),
        unswept::<LockEntry>(locks, clock::time_text(now)).contains_key(key) == now.is_before(end),
        got ==> owned(after, key, other),
        !got ==> after == locks,
{
}

/// A lock that was released, or whose deadline has passed, can be acquired.
pub proof fn law_a_released_lock_is_free(
    locks: Locks,
    key: Seq<char>,
    owner: Seq<char>,
    other: Seq<char>,
    ttl_secs: i64,
    now: UtcTime,
)
    requires
        owned(locks, key, owner),
    ensures
        free(released(locks, key, owner), key, clock::time_text(now)),
        owned(acquired(released(locks, key, owner), key, other, ttl_secs, now), key, other),
        swept(Some(locks[key].expire_at), clock::time_text(now)) ==> owned(
            acquired(locks, key, other, ttl_secs, now),
            key,
            other,
        ),
{
}

/// Acquiring a lock and releasing it leaves the locks without it.
pub proof fn law_releasing_undoes_acquiring(
    locks: Locks,
    key: Seq<char>,
    owner: Seq<char>,
    ttl_secs: i64,
    now: UtcTime,
)
    requires
        free(locks, key, clock::time_text(now)),
    ensures
        released(acquired(locks, key, owner, ttl_secs, now), key, owner) == locks.remove(key),
{
    assert(acquired(locks, key, owner, ttl_secs, now).remove(key) =~= locks.remove(key));
}

/// A value is read back with the type that it was stored with: the same type
/// where that has no white space around it, and `string` where none was told. So
/// it is until its seconds have passed, and for ever where it has none.
pub proof fn law_a_value_keeps_its_type(
    before: Entries,
    after: Entries,
    key: Seq<char>,
    value: Seq<u8>,
    value_type: Seq<char>,
    ttl_secs: i64,
    then: UtcTime,
    now: UtcTime,
)
    requires
        value_stored(before, after, key, value, value_type, ttl_secs, then),
        ttl_secs > 0 ==> clock::time_after(then, ttl_secs as int).writable() && now.writable()
            && now.is_before(clock::time_after(then, ttl_secs as int)),
    ensures
        value_type.len() > 0 && !text::is_white_space(value_type[0]) && !text::is_white_space(
            value_type[value_type.len() - 1],
        ) ==> value_in(after, key, now) == Some((value, value_type)),
        (forall|i: int|
            0 <= i < value_type.len() ==> text::is_white_space(#[trigger] value_type[i]))
            ==> value_in(after, key, now) == Some((value, "string"@)),
        after[key].update_time == clock::time_text(then),
        forall|other: Seq<char>|
            other != key ==> (#[trigger] after.contains_key(other) <==> before.contains_key(other)),
        forall|other: Seq<char>|
            other != key && before.contains_key(other) ==> after[other] == #[trigger] before[other],
{
    let none = Seq::<char>::empty();
    if value_type.len() > 0 && !text::is_white_space(value_type[0]) && !text::is_white_space(
        value_type[value_type.len() - 1],
    ) {
        text::law_trimming_takes_white_space_off_the_ends(none, value_type, none);
        assert(none + value_type + none =~= value_type);
    }
    if forall|i: int|
        0 <= i < value_type.len() ==> text::is_white_space(#[trigger] value_type[i]) {
        text::law_trimming_takes_white_space_off_the_ends(value_type, none, none);
        assert(value_type + none + none =~= value_type);
    }
}

/// A type with white space around it counts as the type without.
pub proof fn law_a_type_counts_without_white_space(
    before: Entries,
    key: Seq<char>,
    value: Seq<u8>,
    spaces: Seq<char>,
    value_type: Seq<char>,
    more: Seq<char>,
    ttl_secs: i64,
    now: UtcTime,
)
    requires
        forall|i: int| 0 <= i < spaces.len() ==> text::is_white_space(#[trigger] spaces[i]),
        forall|i: int| 0 <= i < more.len() ==> text::is_white_space(#[trigger] more[i]),
        value_type.len() > 0,
        !text::is_white_space(value_type[0]),
        !text::is_white_space(value_type[value_type.len() - 1]),
    ensures
        value_set(before, key, value, spaces + value_type + more, ttl_secs, now) == value_set(
            before,
            key,
            value,
            value_type,
            ttl_secs,
            now,
        ),
{
    let none = Seq::<char>::empty();
    text::law_trimming_takes_white_space_off_the_ends(spaces, value_type, more);
    text::law_trimming_takes_white_space_off_the_ends(none, value_type, none);
    assert(none + value_type + none =~= value_type);
}

/// What is told of the seconds that a value has left: those that have begun are
/// not counted, a value with less than a millisecond is taken for gone, one
/// without a deadline has minus one, and one that is not there minus two.
pub proof fn law_the_seconds_left_are_counted_down(
    before: Entries,
    after: Entries,
    key: Seq<char>,
    value: Seq<u8>,
    value_type: Seq<char>,
    ttl_secs: i64,
    then: UtcTime,
    now: UtcTime,
    left: int,
)
    requires
        value_stored(before, after, key, value, value_type, ttl_secs, then),
        ttl_secs > 0,
        clock::time_after(then, ttl_secs as int).writable(),
        ({
            let end = clock::time_after(then, ttl_secs as int);
            left == (end.secs * 1_000_000_000 + end.nanos) - (now.secs * 1_000_000_000 + now.nanos)
        }),
    ensures
        left >= 1_000_000 ==> {
            &&& seconds_left(after, key, now) * 1_000_000_000 <= left
            &&& left < (seconds_left(after, key, now) + 1) * 1_000_000_000
            &&& ttl_looked_at(after, key, now) == after
        },
        left < 1_000_000 ==> seconds_left(after, key, now) == -2 && ttl_looked_at(after, key, now)
            == before.remove(key),
        !before.contains_key(key) ==> seconds_left(before, key, now) == -2,
        seconds_left(value_set(before, key, value, value_type, 0, then), key, now) == -1,
{
    assert(after.remove(key) =~= before.remove(key));
}

/// Adding to a key that is not there makes it with the number that was added, as
/// a `long`. Adding to one that is there adds to the number in front of its value
/// and keeps its deadline. What leaves 64 bits is refused and changes nothing.
pub proof fn law_adding_adds_to_what_is_there(
    before: Entries,
    after: Entries,
    key: Seq<char>,
    delta: i64,
    ttl_secs: i64,
    now: UtcTime,
    r: Result<i64, NotANumber>,
)
    requires
        incremented(before, after, key, delta, ttl_secs, now, r),
        before.contains_key(key) ==> !swept(before[key].expire_at, clock::time_text(now)),
    ensures
        ({
            let start = if before.contains_key(key) {
                number::leading_integer(before[key].value) as int
            } else {
                0
            };
            &&& r is Err <==> !(i64::MIN <= start + delta <= i64::MAX)
            &&& r matches Ok(sum) ==> sum == start + delta && after[key].value == number::decimal(
                sum as int,
            ) && after[key].value_type == "long"@
            &&& r is Err ==> after == before
            &&& r is Ok && before.contains_key(key) ==> after[key].expire_at
                == before[key].expire_at
            &&& r is Ok && !before.contains_key(key) && ttl_secs <= 0 ==> after[key].expire_at
                is None
        }),
        forall|other: Seq<char>|
            other != key ==> (#[trigger] after.contains_key(other) <==> before.contains_key(other)),
        forall|other: Seq<char>|
            other != key && before.contains_key(other) ==> after[other] == #[trigger] before[other],
{
}

/// Only the owner of a lock extends or releases it; whoever acquires one that is
/// free becomes its owner, and the other locks stay.
pub proof fn law_only_the_owner_keeps_a_lock(
    locks: Locks,
    acquired_locks: Locks,
    key: Seq<char>,
    owner: Seq<char>,
    other: Seq<char>,
    ttl_secs: i64,
    now: UtcTime,
    got: bool,
)
    requires
        lock_tried(locks, acquired_locks, key, owner, ttl_secs, now, got),
        !locks.contains_key(key),
        other != owner,
    ensures
        got,
        acquired_locks.contains_key(key),
        acquired_locks[key].owner == owner,
        acquired_locks[key].create_time == clock::time_text(now),
        released(acquired_locks, key, owner) == locks,
        released(acquired_locks, key, other) == acquired_locks,
        renewed(acquired_locks, key, other, ttl_secs, now) == acquired_locks,
        renewed(acquired_locks, key, owner, ttl_secs, now)[key].owner == owner,
        renewed(acquired_locks, key, owner, ttl_secs, now)[key].create_time == clock::time_text(
            now,
        ),
        forall|k: Seq<char>|
            k != key ==> (#[trigger] acquired_locks.contains_key(k) <==> locks.contains_key(k)),
        forall|k: Seq<char>|
            k != key && locks.contains_key(k) ==> acquired_locks[k] == #[trigger] locks[k],
{
    assert(released(acquired_locks, key, owner) =~= locks);
}

/// A request for a lock is refused exactly for a blank key, a blank owner or a
/// time to live that is not positive, and for the first of these.
pub proof fn law_the_first_fault_of_a_lock_is_told(
    lock_key: Seq<char>,
    owner: Seq<char>,
    ttl_secs: i64,
)
    ensures
        text::blank(lock_key) ==> lock_fault(lock_key, owner, ttl_secs) == Some(BadRequest::Key),
        !text::blank(lock_key) && text::blank(owner) ==> lock_fault(lock_key, owner, ttl_secs)
            == Some(BadRequest::Owner),
        !text::blank(lock_key) && !text::blank(owner) && ttl_secs <= 0 ==> lock_fault(
            lock_key,
            owner,
            ttl_secs,
        ) == Some(BadRequest::Ttl),
        !text::blank(lock_key) && !text::blank(owner) && ttl_secs > 0 ==> lock_fault(
            lock_key,
            owner,
            ttl_secs,
        ) is None,
{
    text::law_tight_texts_stay(lock_key);
    text::law_tight_texts_stay(owner);
}

/// The owner of a lock extends it, whether or not its time has come, and the
/// time counts anew from then; it stays the lock that it was. Nobody else does.
pub proof fn law_the_owner_extends_the_lock(
    before: Locks,
    after: Locks,
    key: Seq<char>,
    owner: Seq<char>,
    ttl_secs: i64,
    now: UtcTime,
    got: bool,
)
    requires
        lock_extended(before, after, key, owner, ttl_secs, now, got),
    ensures
        got <==> before.contains_key(key) && before[key].owner == owner,
        got ==> after.contains_key(key) && after[key].owner == owner && after[key].create_time
            == before[key].create_time && after[key].expire_at == clock::time_text(
            clock::time_after(now, ttl_secs as int),
        ),
        !got ==> after == before,
        forall|k: Seq<char>|
            k != key ==> (#[trigger] after.contains_key(k) <==> before.contains_key(k)),
        forall|k: Seq<char>|
            k != key && before.contains_key(k) ==> after[k] == #[trigger] before[k],
{
}

/// The owner of a lock releases it, whether or not its time has come, and nobody
/// else does.
pub proof fn law_the_owner_releases_the_lock(
    locks: Locks,
    key: Seq<char>,
    owner: Seq<char>,
    other: Seq<char>,
)
    requires
        locks.contains_key(key),
        locks[key].owner == owner,
        other != owner,
    ensures
        owned(locks, key, owner),
        !owned(locks, key, other),
        released(locks, key, owner) == locks.remove(key),
        released(locks, key, other) == locks,
{
}

/// A deadline is taken off with seconds that are not positive. It is set only
/// for a key that is there, and nothing else of the key changes.
pub proof fn law_a_deadline_can_be_taken_off(
    before: Entries,
    after: Entries,
    key: Seq<char>,
    ttl_secs: i64,
    then: UtcTime,
    now: UtcTime,
    known: bool,
)
    requires
        deadline_set(before, after, key, ttl_secs, then, known),
    ensures
        known <==> before.contains_key(key),
        !known ==> after == before,
        known ==> after[key].value == before[key].value && after[key].value_type
            == before[key].value_type && after[key].update_time == before[key].update_time,
        known && ttl_secs <= 0 ==> value_in(after, key, now) == Some(
            (before[key].value, before[key].value_type),
        ) && seconds_left(after, key, now) == -1 && unswept::<CacheEntry>(
            after,
            clock::time_text(now),
        ).contains_key(key),
        forall|k: Seq<char>|
            k != key ==> (#[trigger] after.contains_key(k) <==> before.contains_key(k)),
        forall|k: Seq<char>|
            k != key && before.contains_key(k) ==> after[k] == #[trigger] before[k],
{
}

/// A value whose deadline cannot be read is taken for gone, and so is a lock's.
pub proof fn law_an_unreadable_deadline_has_passed(
    entries: Entries,
    locks: Locks,
    key: Seq<char>,
    now: UtcTime,
)
    ensures
        entries.contains_key(key) && (entries[key].expire_at matches Some(raw)
            && clock::instant_of(raw) is None) ==> value_in(entries, key, now) is None
            && seconds_left(entries, key, now) == -2 && !looked_at(entries, key, now).contains_key(
            key,
        ),
        locks.contains_key(key) && clock::instant_of(locks[key].expire_at) is None ==> !locked(
            locks,
            key,
            now,
        ),
        !entries.contains_key(key) ==> value_in(entries, key, now) is None && looked_at(
            entries,
            key,
            now,
        ) == entries,
        !locks.contains_key(key) ==> !locked(locks, key, now),
{
}

/// A sweep keeps every value without a deadline, and changes none that it keeps.
pub proof fn law_a_sweep_keeps_what_has_no_deadline(
    entries: Entries,
    locks: Locks,
    key: Seq<char>,
    now: Seq<char>,
)
    ensures
        entries.contains_key(key) && entries[key].expire_at is None ==> unswept::<CacheEntry>(
            entries,
            now,
        ).contains_key(key),
        unswept::<CacheEntry>(entries, now).contains_key(key) ==> entries.contains_key(key)
            && unswept::<CacheEntry>(entries, now)[key] == entries[key],
        unswept::<LockEntry>(locks, now).contains_key(key) ==> locks.contains_key(key)
            && unswept::<LockEntry>(locks, now)[key] == locks[key],
{
}

/// Adding to a value that has expired starts anew, with the seconds that are
/// given.
pub proof fn law_adding_to_an_expired_value_starts_anew(
    before: Entries,
    after: Entries,
    key: Seq<char>,
    delta: i64,
    ttl_secs: i64,
    now: UtcTime,
    r: Result<i64, NotANumber>,
)
    requires
        incremented(before, after, key, delta, ttl_secs, now, r),
        before.contains_key(key),
        before[key].expire_at matches Some(raw) && !text::text_less(clock::time_text(now), raw),
    ensures
        r == Ok::<i64, NotANumber>(delta),
        after[key].value == number::decimal(delta as int),
        after[key].value_type == "long"@,
        after[key].update_time == clock::time_text(now),
        ttl_secs <= 0 ==> after[key].expire_at is None,
        ttl_secs > 0 ==> after[key].expire_at == Some(
            clock::time_text(clock::time_after(now, ttl_secs as int)),
        ),
{
}

} // verus!
