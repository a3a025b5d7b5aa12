//! Message identifiers and the shards that they belong to.
//!
//! A message lives in the shard of its topic. Its identifier starts with the
//! shard number, so that it is found again from the identifier alone.
use vstd::prelude::*;
use vstd::string::*;
use vstd::utf8::*;

verus! {

pub const MESSAGE_SHARDS: usize = 16;

/// FNV-1a over bytes.
pub open spec fn fnv1a(bytes: Seq<u8>) -> u64
    decreases bytes.len(),
{
    if bytes.len() == 0 {
        0xcbf29ce484222325u64
    } else {
        (((fnv1a(bytes.drop_last()) ^ (bytes.last() as u64)) * 0x100000001b3u64)
            % 0x1_0000_0000_0000_0000) as u64
    }
}

/// The shard of a topic.
#[verifier::opaque]
pub open spec fn shard_of(topic: Seq<char>) -> int {
    (fnv1a(encode_utf8(topic)) % 16) as int
}

/// Every topic has one of the sixteen shards.
pub proof fn law_every_topic_has_a_shard(topic: Seq<char>)
    ensures
        0 <= shard_of(topic) < 16,
{
    reveal(shard_of);
}

/// The shard of a topic.
pub fn topic_shard(topic: &str) -> (r: usize)
    ensures
        r == shard_of(topic@),
        r < MESSAGE_SHARDS,
{
    let bytes: &[u8] = topic.as_bytes();
    let mut hash: u64 = 0xcbf29ce484222325;
    let mut i: usize = 0;
    proof {
        assert(bytes@.take(0) =~= Seq::<u8>::empty());
    }
    while i < bytes.len()
        invariant
            i <= bytes@.len(),
            bytes@ == encode_utf8(topic@),
            hash == fnv1a(bytes@.take(i as int)),
        decreases bytes.len() - i,
    {
        proof {
            assert(bytes@.take(i + 1).drop_last() =~= bytes@.take(i as int));
        }
        hash = (hash ^ (bytes[i] as u64)).wrapping_mul(0x100000001b3);
        i = i + 1;
    }
    proof {
        reveal(shard_of);
        assert(bytes@.take(bytes@.len() as int) =~= bytes@);
    }
    (hash % 16) as usize
}

/// A digit as a character.
pub open spec fn digit(n: int) -> char {
    (n + '0' as int) as char
}

/// A number below 100 with two digits.
pub open spec fn two_digits(n: int) -> Seq<char> {
    seq![digit(n / 10), digit(n % 10)]
}

/// `s`, the shard with two digits, and `-`.
pub open spec fn shard_prefix(shard: int) -> Seq<char> {
    seq!['s'] + two_digits(shard) + seq!['-']
}

/// A number below 100 with two digits.
pub fn push_two_digits(out: &mut String, n: usize)
    requires
        n < 100,
    ensures
        final(out)@ == old(out)@ + two_digits(n as int),
{
    out.push((48u8 + (n / 10) as u8) as char);
    out.push((48u8 + (n % 10) as u8) as char);
    proof {
        assert(out@ =~= old(out)@ + two_digits(n as int));
    }
}

/// The name of the file that holds the messages of a shard.
pub fn shard_file_name(stem: &str, shard: usize) -> (r: String)
    requires
        shard < MESSAGE_SHARDS,
    ensures
        r@ == stem@ + "-"@ + two_digits(shard as int) + ".db"@,
{
    let mut out: String = stem.to_string();
    out.append("-");
    push_two_digits(&mut out, shard);
    out.append(".db");
    out
}

/// The identifier `name` marked with a shard.
pub fn mark_with_shard(shard: usize, name: &str) -> (r: String)
    requires
        shard < MESSAGE_SHARDS,
    ensures
        r@ == shard_prefix(shard as int) + name@,
{
    let mut out: String = String::new();
    out.push('s');
    push_two_digits(&mut out, shard);
    out.push('-');
    out.append(name);
    proof {
        assert(out@ =~= shard_prefix(shard as int) + name@);
    }
    out
}

/// The characters of the hyphenated text of a random UUID.
pub open spec fn is_uuid_text(s: Seq<char>) -> bool {
    &&& s.len() == 36
    &&& forall|i: int|
        0 <= i < 36 ==> (if i == 8 || i == 13 || i == 18 || i == 23 {
            #[trigger] s[i] == '-'
        } else {
            ('0' <= s[i] <= '9') || ('a' <= s[i] <= 'f')
        })
    &&& s[14] == '4'
}

/// `uuid::Uuid::new_v4` and its text. The text is random; all that is said of
/// it is its shape. That no text comes twice is not stated.
#[verifier::external_body]
pub(crate) fn random_id() -> (r: String)
    ensures
        is_uuid_text(r@),
{
    uuid::Uuid::new_v4().to_string()
}

/// A fresh identifier for a message of the given shard.
pub fn prefixed_message_id(shard: usize) -> (r: String)
    requires
        shard < MESSAGE_SHARDS,
    ensures
        r@.len() == 40,
        r@.take(4) == shard_prefix(shard as int),
        is_uuid_text(r@.skip(4)),
{
    let name: String = random_id();
    let r: String = mark_with_shard(shard, name.as_str());
    proof {
        assert(r@.take(4) =~= shard_prefix(shard as int));
        assert(r@.skip(4) =~= name@);
    }
    r
}

/// The text of a random UUID behind the mark of the topic's shard.
pub open spec fn is_fresh_id(id: Seq<char>, topic: Seq<char>) -> bool {
    &&& id.len() == 40
    &&& id.take(4) == shard_prefix(shard_of(topic))
    &&& is_uuid_text(id.skip(4))
}

/// A fresh identifier for a message of the given topic.
pub fn new_message_id(topic: &str) -> (r: String)
    ensures
        is_fresh_id(r@, topic@),
        shard_of_id(r@) == Some(shard_of(topic@)),
{
    let shard: usize = topic_shard(topic);
    let r: String = prefixed_message_id(shard);
    proof {
        law_marked_id_names_its_shard(shard as int, r@.skip(4));
        assert(r@ =~= shard_prefix(shard as int) + r@.skip(4));
    }
    r
}

pub open spec fn is_digit(c: char) -> bool {
    '0' <= c <= '9'
}

/// The number that two characters write: two digits, or a plus sign and a digit.
pub open spec fn number_of(a: char, b: char) -> Option<int> {
    if is_digit(a) && is_digit(b) {
        Some((a as int - '0' as int) * 10 + (b as int - '0' as int))
    } else if a == '+' && is_digit(b) {
        Some(b as int - '0' as int)
    } else {
        None
    }
}

/// The shard that an identifier names.
pub open spec fn shard_of_id(id: Seq<char>) -> Option<int> {
    if id.len() >= 4 && id[0] == 's' && id[3] == '-' {
        match number_of(id[1], id[2]) {
            Some(n) => if n < 16 {
                Some(n)
            } else {
                None
            },
            None => None,
        }
    } else {
        None
    }
}

/// The shard that an identifier names.
pub fn message_id_shard(id: &str) -> (r: Option<usize>)
    ensures
        match r {
            Some(n) => shard_of_id(id@) == Some(n as int) && n < MESSAGE_SHARDS,
            None => shard_of_id(id@) is None,
        },
{
    if id.unicode_len() < 4 || id.get_char(0) != 's' || id.get_char(3) != '-' {
        return None;
    }
    let a: char = id.get_char(1);
    let b: char = id.get_char(2);
    if b < '0' || b > '9' {
        return None;
    }
    let low: usize = (b as u8 - 48u8) as usize;
    let n: usize = if '0' <= a && a <= '9' {
        (a as u8 - 48u8) as usize * 10 + low
    } else if a == '+' {
        low
    } else {
        return None;
    };
    if n < MESSAGE_SHARDS {
        Some(n)
    } else {
        None
    }
}

/// The identifier that a message gets when it moves to the shard of its topic:
/// its own if it names a shard already.
pub open spec fn migrated_id(topic: Seq<char>, id: Seq<char>) -> Seq<char> {
    if shard_of_id(id) is Some {
        id
    } else {
        shard_prefix(shard_of(topic)) + id
    }
}

/// The identifier that a message gets when it moves to the shard of its topic.
pub fn migrate_id(topic: &str, id: &str) -> (r: String)
    ensures
        r@ == migrated_id(topic@, id@),
{
    if message_id_shard(id).is_some() {
        id.to_string()
    } else {
        mark_with_shard(topic_shard(topic), id)
    }
}

/// An identifier marked with a shard names that shard.
pub proof fn law_marked_id_names_its_shard(shard: int, name: Seq<char>)
    requires
        0 <= shard < 16,
    ensures
        shard_of_id(shard_prefix(shard) + name) == Some(shard),
{
    let id = shard_prefix(shard) + name;
    assert(id[0] == 's');
    assert(id[1] == digit(shard / 10));
    assert(id[2] == digit(shard % 10));
    assert(id[3] == '-');
}

/// Every migrated identifier names a shard, and migrating it again keeps it.
pub proof fn law_migration_is_idempotent(topic: Seq<char>, id: Seq<char>)
    ensures
        shard_of_id(migrated_id(topic, id)) is Some,
        migrated_id(topic, migrated_id(topic, id)) == migrated_id(topic, id),
{
    law_every_topic_has_a_shard(topic);
    law_marked_id_names_its_shard(shard_of(topic), id);
}

/// The shard of a topic is a hash of its bytes, the one called FNV-1a, modulo
/// sixteen: it starts from the offset basis, and each byte is mixed in and
/// multiplied with the prime.
pub proof fn law_topics_are_spread_by_fnv1a(bytes: Seq<u8>, b: u8, topic: Seq<char>)
    ensures
        fnv1a(Seq::empty()) == 14695981039346656037u64,
        fnv1a(bytes.push(b)) as int == ((fnv1a(bytes) ^ (b as u64)) as int * 1099511628211)
            % 18446744073709551616,
        shard_of(topic) == fnv1a(encode_utf8(topic)) as int % 16,
{
    reveal(shard_of);
    assert(bytes.push(b).drop_last() =~= bytes);
    assert(0x100000001b3u64 == 1099511628211u64);
    assert(0xcbf29ce484222325u64 == 14695981039346656037u64);
}

/// An identifier names a shard exactly if it begins with `s`, the number of the
/// shard in two places, and `-`.
pub proof fn law_an_identifier_names_its_shard_in_front(id: Seq<char>, tens: int, ones: int)
    requires
        0 <= tens <= 9,
        0 <= ones <= 9,
    ensures
        shard_of_id(id) is Some ==> id.len() >= 4 && id[0] == 's' && id[3] == '-',
        id.len() >= 4 && id[0] == 's' && id[1] as int == '0' as int + tens && id[2] as int
            == '0' as int + ones && id[3] == '-' ==> shard_of_id(id) == (if tens * 10 + ones < 16 {
            Some(tens * 10 + ones)
        } else {
            None
        }),
{
}

/// An old identifier keeps what it is behind the mark of its topic's shard; one
/// that names a shard stays.
pub proof fn law_an_old_identifier_is_marked(topic: Seq<char>, id: Seq<char>)
    ensures
        shard_of_id(id) is Some ==> migrated_id(topic, id) == id,
        shard_of_id(id) is None ==> migrated_id(topic, id).len() == id.len() + 4 && migrated_id(
            topic,
            id,
        ).skip(4) == id && shard_of_id(migrated_id(topic, id)) == Some(shard_of(topic)),
{
    law_every_topic_has_a_shard(topic);
    law_marked_id_names_its_shard(shard_of(topic), id);
    if shard_of_id(id) is None {
        assert(migrated_id(topic, id).skip(4) =~= id);
    }
}

/// An identifier names a shard where it begins with the letter s, a number below
/// sixteen in two characters, and a hyphen. The number is two digits, or a plus
/// sign and one. Nothing else names a shard.
pub proof fn law_the_shard_of_an_identifier(id: Seq<char>)
    ensures
        id.len() < 4 ==> shard_of_id(id) is None,
        id.len() >= 4 && (id[0] != 's' || id[3] != '-') ==> shard_of_id(id) is None,
        id.len() >= 4 && id[0] == 's' && id[3] == '-' ==> {
            let tens = id[1] as int - 48;
            let ones = id[2] as int - 48;
            let n = if id[1] == '+' {
                ones
            } else {
                10 * tens + ones
            };
            let numeric = 0 <= ones <= 9 && (id[1] == '+' || 0 <= tens <= 9);
            &&& numeric && n < 16 ==> shard_of_id(id) == Some(n)
            &&& !numeric || n >= 16 ==> shard_of_id(id) is None
        },
{
}

} // verus!
