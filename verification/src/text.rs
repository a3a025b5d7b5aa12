//! Text primitives: trimming, splitting, ordering and comparison of strings.
//!
//! A string is modelled by its sequence of characters. Ordering follows the
//! bytes of the UTF-8 encoding, which is how strings compare in Rust and how
//! text columns compare in SQLite.
use vstd::prelude::*;
use vstd::string::*;
use vstd::utf8::*;

verus! {

/// `String::push` appends one character at the end.
pub assume_specification[ String::push ](s: &mut String, c: char)
    ensures
        final(s)@ == old(s)@.push(c),
;

/// `String::from_utf8` succeeds exactly on valid UTF-8, and then holds the
/// characters that the bytes encode.
#[verifier::external_body]
pub(crate) fn text_from_utf8(bytes: Vec<u8>) -> (r: Option<String>)
    ensures
        match r {
            Some(s) => valid_utf8(bytes@) && s@ == decode_utf8(bytes@),
            None => !valid_utf8(bytes@),
        },
{
    String::from_utf8(bytes).ok()
}

/// The characters with the Unicode property `White_Space`.
pub open spec fn is_white_space(c: char) -> bool {
    ||| '\u{9}' <= c <= '\u{d}'
    ||| c == '\u{20}'
    ||| c == '\u{85}'
    ||| c == '\u{a0}'
    ||| c == '\u{1680}'
    ||| '\u{2000}' <= c <= '\u{200a}'
    ||| c == '\u{2028}'
    ||| c == '\u{2029}'
    ||| c == '\u{202f}'
    ||| c == '\u{205f}'
    ||| c == '\u{3000}'
}

/// `char::is_whitespace` tells whether a character has the Unicode property
/// `White_Space`.
pub assume_specification[ char::is_whitespace ](c: char) -> (r: bool)
    ensures
        r == is_white_space(c),
;

// ---------------------------------------------------------------- trimming

/// `s` without the leading and trailing characters that satisfy `drop`.
pub open spec fn trim_by(s: Seq<char>, drop: spec_fn(char) -> bool) -> Seq<char>
    decreases s.len(),
{
    if s.len() > 0 && drop(s.first()) {
        trim_by(s.drop_first(), drop)
    } else {
        trim_end_by(s, drop)
    }
}

/// `s` without the trailing characters that satisfy `drop`.
pub open spec fn trim_end_by(s: Seq<char>, drop: spec_fn(char) -> bool) -> Seq<char>
    decreases s.len(),
{
    if s.len() > 0 && drop(s.last()) {
        trim_end_by(s.drop_last(), drop)
    } else {
        s
    }
}

/// `s` without leading and trailing white space.
pub open spec fn trimmed(s: Seq<char>) -> Seq<char> {
    trim_by(s, |c: char| is_white_space(c))
}

/// The predicate that holds of `sep` alone.
pub open spec fn only(sep: char) -> spec_fn(char) -> bool {
    |c: char| c == sep
}

/// `s` without leading and trailing occurrences of `sep`.
pub open spec fn trimmed_of(s: Seq<char>, sep: char) -> Seq<char> {
    trim_by(s, only(sep))
}

/// `s` without trailing occurrences of `sep`.
pub open spec fn trimmed_end_of(s: Seq<char>, sep: char) -> Seq<char> {
    trim_end_by(s, only(sep))
}

proof fn lemma_trim_end_range(s: Seq<char>, drop: spec_fn(char) -> bool, end: int)
    requires
        0 <= end <= s.len(),
        forall|i: int| end <= i < s.len() ==> drop(#[trigger] s[i]),
        end > 0 ==> !drop(s[end - 1]),
    ensures
        trim_end_by(s, drop) == s.take(end),
    decreases s.len(),
{
    if s.len() > end {
        assert(drop(s[s.len() - 1]));
        lemma_trim_end_range(s.drop_last(), drop, end);
        assert(s.drop_last().take(end) =~= s.take(end));
    } else {
        assert(s.take(end) =~= s);
    }
}

proof fn lemma_trim_range(s: Seq<char>, drop: spec_fn(char) -> bool, start: int, end: int)
    requires
        0 <= start <= end <= s.len(),
        forall|i: int| 0 <= i < start ==> drop(#[trigger] s[i]),
        forall|i: int| end <= i < s.len() ==> drop(#[trigger] s[i]),
        start < end ==> !drop(s[start]) && !drop(s[end - 1]),
        start == end ==> end == s.len(),
    ensures
        trim_by(s, drop) == s.subrange(start, end),
    decreases start,
{
    if start > 0 {
        assert(drop(s[0]));
        let t = s.drop_first();
        assert forall|i: int| 0 <= i < start - 1 implies drop(#[trigger] t[i]) by {
            assert(drop(s[i + 1]));
        }
        assert forall|i: int| end - 1 <= i < t.len() implies drop(#[trigger] t[i]) by {
            assert(drop(s[i + 1]));
        }
        lemma_trim_range(t, drop, start - 1, end - 1);
        assert(t.subrange(start - 1, end - 1) =~= s.subrange(start, end));
    } else {
        lemma_trim_end_range(s, drop, end);
        assert(s.take(end) =~= s.subrange(start, end));
    }
}

/// The text of `s` without leading and trailing white space.
pub fn trim(s: &str) -> (r: &str)
    ensures
        r@ == trimmed(s@),
{
    let ghost drop = |c: char| is_white_space(c);
    let mut start: usize = 0;
    let mut end: usize = 0;
    let mut count: usize = 0;
    let mut seen: bool = false;
    let total: usize = s.unicode_len();
    for c in it: s.chars()
        invariant
            it.seq() == s@,
            total == s@.len(),
            count == it.index(),
            start <= end <= count,
            drop == (|c: char| is_white_space(c)),
            !seen ==> start == 0 && end == 0,
            !seen ==> forall|i: int| 0 <= i < count ==> drop(#[trigger] s@[i]),
            seen ==> start < end && !drop(s@[start as int]) && !drop(s@[end - 1]),
            seen ==> forall|i: int| 0 <= i < start ==> drop(#[trigger] s@[i]),
            seen ==> forall|i: int| end <= i < count ==> drop(#[trigger] s@[i]),
    {
        assert(it.index() < s@.len());
        if !c.is_whitespace() {
            if !seen {
                start = count;
                seen = true;
            }
            end = count + 1;
        }
        count = count + 1;
    }
    if !seen {
        proof {
            lemma_trim_range(s@, drop, s@.len() as int, s@.len() as int);
            assert(s@.subrange(0, 0) =~= s@.subrange(s@.len() as int, s@.len() as int));
        }
        s.substring_char(0, 0)
    } else {
        proof {
            lemma_trim_range(s@, drop, start as int, end as int);
        }
        s.substring_char(start, end)
    }
}

/// The text of `s` without leading and trailing occurrences of `sep`.
pub fn trim_char(s: &str, sep: char) -> (r: &str)
    ensures
        r@ == trimmed_of(s@, sep),
{
    let ghost drop = only(sep);
    let mut start: usize = 0;
    let mut end: usize = 0;
    let mut count: usize = 0;
    let mut seen: bool = false;
    let total: usize = s.unicode_len();
    for c in it: s.chars()
        invariant
            it.seq() == s@,
            total == s@.len(),
            count == it.index(),
            start <= end <= count,
            drop == only(sep),
            !seen ==> start == 0 && end == 0,
            !seen ==> forall|i: int| 0 <= i < count ==> drop(#[trigger] s@[i]),
            seen ==> start < end && !drop(s@[start as int]) && !drop(s@[end - 1]),
            seen ==> forall|i: int| 0 <= i < start ==> drop(#[trigger] s@[i]),
            seen ==> forall|i: int| end <= i < count ==> drop(#[trigger] s@[i]),
    {
        assert(it.index() < s@.len());
        if c != sep {
            if !seen {
                start = count;
                seen = true;
            }
            end = count + 1;
        }
        count = count + 1;
    }
    if !seen {
        proof {
            lemma_trim_range(s@, drop, s@.len() as int, s@.len() as int);
            assert(s@.subrange(0, 0) =~= s@.subrange(s@.len() as int, s@.len() as int));
        }
        s.substring_char(0, 0)
    } else {
        proof {
            lemma_trim_range(s@, drop, start as int, end as int);
        }
        s.substring_char(start, end)
    }
}

/// The text of `s` without trailing occurrences of `sep`.
pub fn trim_end_char(s: &str, sep: char) -> (r: &str)
    ensures
        r@ == trimmed_end_of(s@, sep),
{
    let ghost drop = only(sep);
    let mut end: usize = 0;
    let mut count: usize = 0;
    let total: usize = s.unicode_len();
    for c in it: s.chars()
        invariant
            it.seq() == s@,
            total == s@.len(),
            count == it.index(),
            end <= count,
            drop == only(sep),
            end > 0 ==> !drop(s@[end - 1]),
            forall|i: int| end <= i < count ==> drop(#[trigger] s@[i]),
    {
        assert(it.index() < s@.len());
        if c != sep {
            end = count + 1;
        }
        count = count + 1;
    }
    proof {
        lemma_trim_end_range(s@, drop, end as int);
        assert(s@.take(end as int) =~= s@.subrange(0, end as int));
    }
    s.substring_char(0, end)
}

// --------------------------------------------------------------- comparing

/// Two strings with the same UTF-8 bytes have the same characters.
pub proof fn lemma_utf8_injective(a: Seq<char>, b: Seq<char>)
    ensures
        encode_utf8(a) == encode_utf8(b) <==> a == b,
{
    encode_utf8_decode_utf8(a);
    encode_utf8_decode_utf8(b);
}

/// Whether two byte slices hold the same bytes.
pub fn bytes_eq(a: &[u8], b: &[u8]) -> (r: bool)
    ensures
        r == (a@ == b@),
{
    if a.len() != b.len() {
        return false;
    }
    let mut i: usize = 0;
    while i < a.len()
        invariant
            i <= a.len(),
            a@.len() == b@.len(),
            forall|k: int| 0 <= k < i ==> a@[k] == b@[k],
        decreases a.len() - i,
    {
        if a[i] != b[i] {
            return false;
        }
        i = i + 1;
    }
    assert(a@ =~= b@);
    true
}

/// Whether two strings are equal.
pub fn text_eq(a: &str, b: &str) -> (r: bool)
    ensures
        r == (a@ == b@),
{
    proof {
        lemma_utf8_injective(a@, b@);
    }
    bytes_eq(a.as_bytes(), b.as_bytes())
}

/// Lexicographic order of byte sequences.
pub open spec fn bytes_less(a: Seq<u8>, b: Seq<u8>) -> bool
    decreases a.len(),
{
    if b.len() == 0 {
        false
    } else if a.len() == 0 {
        true
    } else if a[0] != b[0] {
        a[0] < b[0]
    } else {
        bytes_less(a.drop_first(), b.drop_first())
    }
}

/// Order of strings: lexicographic on the UTF-8 bytes.
pub open spec fn text_less(a: Seq<char>, b: Seq<char>) -> bool {
    bytes_less(encode_utf8(a), encode_utf8(b))
}

proof fn lemma_bytes_less_irreflexive(a: Seq<u8>)
    ensures
        !bytes_less(a, a),
    decreases a.len(),
{
    if a.len() > 0 {
        lemma_bytes_less_irreflexive(a.drop_first());
    }
}

proof fn lemma_bytes_less_transitive(a: Seq<u8>, b: Seq<u8>, c: Seq<u8>)
    requires
        bytes_less(a, b),
        bytes_less(b, c),
    ensures
        bytes_less(a, c),
    decreases a.len(),
{
    if a.len() > 0 && b.len() > 0 && c.len() > 0 && a[0] == b[0] && b[0] == c[0] {
        lemma_bytes_less_transitive(a.drop_first(), b.drop_first(), c.drop_first());
    }
}

proof fn lemma_bytes_less_total(a: Seq<u8>, b: Seq<u8>)
    ensures
        bytes_less(a, b) || bytes_less(b, a) || a == b,
    decreases a.len(),
{
    if a.len() == 0 && b.len() == 0 {
        assert(a =~= b);
    } else if a.len() > 0 && b.len() > 0 && a[0] == b[0] {
        lemma_bytes_less_total(a.drop_first(), b.drop_first());
        if a.drop_first() == b.drop_first() {
            assert(a =~= seq![a[0]] + a.drop_first());
            assert(b =~= seq![b[0]] + b.drop_first());
        }
    }
}

/// The order of strings is a strict total order.
pub proof fn lemma_text_less_order(a: Seq<char>, b: Seq<char>, c: Seq<char>)
    ensures
        !text_less(a, a),
        text_less(a, b) && text_less(b, c) ==> text_less(a, c),
        text_less(a, b) || text_less(b, a) || a == b,
        text_less(a, b) ==> !text_less(b, a),
        !text_less(b, a) && !text_less(c, b) ==> !text_less(c, a),
{
    let x = encode_utf8(a);
    let y = encode_utf8(b);
    let z = encode_utf8(c);
    lemma_bytes_less_irreflexive(x);
    lemma_bytes_less_irreflexive(y);
    lemma_bytes_less_total(x, y);
    lemma_bytes_less_total(y, z);
    lemma_utf8_injective(a, b);
    lemma_utf8_injective(b, c);
    if bytes_less(x, y) && bytes_less(y, z) {
        lemma_bytes_less_transitive(x, y, z);
    }
    if bytes_less(x, y) && bytes_less(y, x) {
        lemma_bytes_less_transitive(x, y, x);
    }
    if bytes_less(z, x) && bytes_less(x, y) {
        lemma_bytes_less_transitive(z, x, y);
    }
}

/// Whether `a` sorts strictly before `b`.
pub fn less(a: &str, b: &str) -> (r: bool)
    ensures
        r == text_less(a@, b@),
{
    let x: &[u8] = a.as_bytes();
    let y: &[u8] = b.as_bytes();
    let mut i: usize = 0;
    proof {
        assert(x@.skip(0) =~= x@);
        assert(y@.skip(0) =~= y@);
    }
    while i < x.len() && i < y.len()
        invariant
            i <= x.len(),
            i <= y.len(),
            x@ == encode_utf8(a@),
            y@ == encode_utf8(b@),
            text_less(a@, b@) == bytes_less(x@.skip(i as int), y@.skip(i as int)),
        decreases x.len() - i,
    {
        if x[i] != y[i] {
            return x[i] < y[i];
        }
        proof {
            assert(x@.skip(i as int).drop_first() =~= x@.skip(i + 1));
            assert(y@.skip(i as int).drop_first() =~= y@.skip(i + 1));
        }
        i = i + 1;
    }
    i < y.len()
}

// --------------------------------------------------------------- splitting

/// The pieces of `s` between the occurrences of `sep`; never empty.
pub open spec fn split_on(s: Seq<char>, sep: char) -> Seq<Seq<char>>
    decreases s.len(),
{
    if s.len() == 0 {
        seq![Seq::<char>::empty()]
    } else {
        let init = split_on(s.drop_last(), sep);
        if s.last() == sep {
            init.push(Seq::<char>::empty())
        } else {
            init.drop_last().push(init.last().push(s.last()))
        }
    }
}

/// The characters of an optional string.
pub open spec fn opt_text(o: Option<String>) -> Option<Seq<char>> {
    match o {
        Some(s) => Some(s@),
        None => None,
    }
}

/// The characters of an optional string slice.
pub open spec fn opt_str(o: Option<&str>) -> Option<Seq<char>> {
    match o {
        Some(s) => Some(s@),
        None => None,
    }
}

/// The characters of each string.
pub open spec fn texts(v: Seq<String>) -> Seq<Seq<char>> {
    v.map_values(|s: String| s@)
}

pub proof fn lemma_split_nonempty(s: Seq<char>, sep: char)
    ensures
        split_on(s, sep).len() > 0,
    decreases s.len(),
{
    if s.len() > 0 {
        lemma_split_nonempty(s.drop_last(), sep);
    }
}

/// The pieces of `s` between the occurrences of `sep`.
pub fn split(s: &str, sep: char) -> (r: Vec<String>)
    ensures
        texts(r@) == split_on(s@, sep),
{
    let mut done: Vec<String> = Vec::new();
    let mut current: String = String::new();
    proof {
        assert(s@.take(0) =~= Seq::<char>::empty());
        assert(texts(done@).push(current@) =~= split_on(s@.take(0), sep));
    }
    for c in it: s.chars()
        invariant
            it.seq() == s@,
            texts(done@).push(current@) == split_on(s@.take(it.index()), sep),
    {
        let ghost k = it.index();
        let ghost before = split_on(s@.take(k), sep);
        proof {
            assert(k < s@.len());
            assert(s@.take(k + 1).drop_last() =~= s@.take(k));
            assert(before.drop_last() =~= texts(done@));
            assert(before.last() == current@);
        }
        if c == sep {
            let ghost old_done = done@;
            done.push(current);
            current = String::new();
            proof {
                assert(texts(done@) =~= before);
            }
        } else {
            current.push(c);
        }
    }
    proof {
        assert(s@.take(s@.len() as int) =~= s@);
    }
    let ghost old_done = done@;
    done.push(current);
    proof {
        assert(texts(done@) =~= texts(old_done).push(current@));
    }
    done
}

/// Whether `s` is one of `list`.
pub fn contains_text(list: &Vec<String>, s: &str) -> (r: bool)
    ensures
        r == texts(list@).contains(s@),
{
    let mut i: usize = 0;
    while i < list.len()
        invariant
            i <= list@.len(),
            forall|k: int| 0 <= k < i ==> #[trigger] texts(list@)[k] != s@,
        decreases list.len() - i,
    {
        if text_eq(list[i].as_str(), s) {
            proof {
                assert(texts(list@)[i as int] == s@);
            }
            return true;
        }
        i = i + 1;
    }
    false
}

/// Whether `c` occurs in `s`.
pub fn contains_char(s: &str, c: char) -> (r: bool)
    ensures
        r == s@.contains(c),
{
    for x in it: s.chars()
        invariant
            it.seq() == s@,
            forall|i: int| 0 <= i < it.index() ==> s@[i] != c,
    {
        if x == c {
            proof {
                assert(s@[it.index()] == c);
            }
            return true;
        }
    }
    false
}

/// Whether `s` starts with `prefix`.
pub fn starts_with(s: &str, prefix: &str) -> (r: bool)
    ensures
        r == prefix@.is_prefix_of(s@),
{
    let n: usize = prefix.unicode_len();
    if s.unicode_len() < n {
        return false;
    }
    let head: &str = s.substring_char(0, n);
    let r: bool = text_eq(head, prefix);
    proof {
        assert(head@ =~= s@.subrange(0, n as int));
        if r {
            assert(prefix@ =~= s@.subrange(0, prefix@.len() as int));
        }
    }
    r
}

/// `a` followed by `b`.
pub fn joined(a: &str, b: &str) -> (r: String)
    ensures
        r@ == a@ + b@,
{
    let mut out: String = a.to_string();
    out.append(b);
    out
}

/// What follows `prefix` at the start of `s`.
pub open spec fn after_prefix(s: Seq<char>, prefix: Seq<char>) -> Option<Seq<char>> {
    if prefix.is_prefix_of(s) {
        Some(s.skip(prefix.len() as int))
    } else {
        None
    }
}

/// What follows `prefix` at the start of `s`.
pub fn strip_prefix<'a>(s: &'a str, prefix: &str) -> (r: Option<&'a str>)
    ensures
        match r {
            Some(rest) => after_prefix(s@, prefix@) == Some(rest@),
            None => after_prefix(s@, prefix@) is None,
        },
{
    if starts_with(s, prefix) {
        let rest: &str = s.substring_char(prefix.unicode_len(), s.unicode_len());
        proof {
            assert(rest@ =~= s@.skip(prefix@.len() as int));
        }
        Some(rest)
    } else {
        None
    }
}

/// The lower-case form of an ASCII letter; other characters stay.
pub open spec fn lower_char(c: char) -> char {
    if 'A' <= c <= 'Z' {
        (c as u32 + 32) as char
    } else {
        c
    }
}

pub open spec fn lowered(s: Seq<char>) -> Seq<char> {
    s.map_values(|c: char| lower_char(c))
}

/// The text with its ASCII letters in lower case.
pub fn to_ascii_lower(s: &str) -> (r: String)
    ensures
        r@ == lowered(s@),
{
    let mut out: String = String::new();
    proof {
        assert(out@ =~= lowered(s@).take(0));
    }
    for c in it: s.chars()
        invariant
            it.seq() == s@,
            out@ == lowered(s@).take(it.index()),
    {
        let ghost k = it.index();
        if 'A' <= c && c <= 'Z' {
            out.push((c as u8 + 32) as char);
        } else {
            out.push(c);
        }
        proof {
            assert(lowered(s@)[k] == lower_char(c));
            assert(lowered(s@).take(k + 1) =~= lowered(s@).take(k).push(lower_char(c)));
        }
    }
    proof {
        assert(lowered(s@).take(s@.len() as int) =~= lowered(s@));
    }
    out
}

// ------------------------------------------------------ joining and laws

/// The pieces of `parts` with `sep` between neighbours.
pub open spec fn join_with(parts: Seq<Seq<char>>, sep: char) -> Seq<char>
    decreases parts.len(),
{
    if parts.len() == 0 {
        Seq::empty()
    } else if parts.len() == 1 {
        parts[0]
    } else {
        join_with(parts.drop_last(), sep).push(sep) + parts.last()
    }
}

/// Joining the pieces of a string gives the string back.
pub proof fn lemma_join_of_split(s: Seq<char>, sep: char)
    ensures
        join_with(split_on(s, sep), sep) == s,
    decreases s.len(),
{
    if s.len() > 0 {
        let init = s.drop_last();
        let parts = split_on(init, sep);
        lemma_join_of_split(init, sep);
        lemma_split_nonempty(init, sep);
        if s.last() == sep {
            assert(parts.push(Seq::empty()).drop_last() =~= parts);
            assert(join_with(split_on(s, sep), sep) =~= s);
        } else {
            let grown = parts.drop_last().push(parts.last().push(s.last()));
            assert(grown.drop_last() =~= parts.drop_last());
            assert(join_with(grown, sep) =~= join_with(parts, sep).push(s.last()));
            assert(join_with(split_on(s, sep), sep) =~= s);
        }
    } else {
        assert(s =~= Seq::<char>::empty());
    }
}

/// A string is determined by its pieces.
pub proof fn lemma_split_injective(a: Seq<char>, b: Seq<char>, sep: char)
    ensures
        split_on(a, sep) == split_on(b, sep) <==> a == b,
{
    lemma_join_of_split(a, sep);
    lemma_join_of_split(b, sep);
}

/// Joining two non-empty groups of pieces joins the groups.
pub proof fn lemma_join_concat(a: Seq<Seq<char>>, b: Seq<Seq<char>>, sep: char)
    requires
        a.len() > 0,
        b.len() > 0,
    ensures
        join_with(a + b, sep) == join_with(a, sep).push(sep) + join_with(b, sep),
    decreases b.len(),
{
    assert((a + b).drop_last() =~= a + b.drop_last());
    assert((a + b).last() == b.last());
    if b.len() == 1 {
        assert(a + b.drop_last() =~= a);
    } else {
        lemma_join_concat(a, b.drop_last(), sep);
        assert(join_with(a + b, sep) =~= join_with(a, sep).push(sep) + join_with(b, sep));
    }
}

/// The pieces of two strings with the separator between them are the pieces of
/// the first followed by the pieces of the second.
pub proof fn lemma_split_concat(a: Seq<char>, b: Seq<char>, sep: char)
    ensures
        split_on(a.push(sep) + b, sep) == split_on(a, sep) + split_on(b, sep),
    decreases b.len(),
{
    let whole = a.push(sep) + b;
    if b.len() == 0 {
        assert(whole =~= a.push(sep));
        assert(a.push(sep).drop_last() =~= a);
        assert(split_on(whole, sep) =~= split_on(a, sep) + split_on(b, sep));
    } else {
        assert(whole.drop_last() =~= a.push(sep) + b.drop_last());
        lemma_split_concat(a, b.drop_last(), sep);
        lemma_split_nonempty(b.drop_last(), sep);
        let left = split_on(a, sep);
        let right = split_on(b.drop_last(), sep);
        assert((left + right).last() == right.last());
        assert((left + right).drop_last() =~= left + right.drop_last());
        assert(split_on(whole, sep) =~= left + split_on(b, sep));
    }
}

/// A string without the separator is its own only piece.
pub proof fn lemma_split_plain(s: Seq<char>, sep: char)
    requires
        !s.contains(sep),
    ensures
        split_on(s, sep) == seq![s],
    decreases s.len(),
{
    if s.len() > 0 {
        let init = s.drop_last();
        assert(s.last() == s[s.len() - 1]);
        assert forall|i: int| 0 <= i < init.len() implies init[i] != sep by {
            assert(s[i] == init[i]);
        }
        lemma_split_plain(init, sep);
        assert(init.push(s.last()) =~= s);
        assert(split_on(s, sep) =~= seq![s]);
    } else {
        assert(s =~= Seq::<char>::empty());
    }
}

/// The pieces contain only characters of the string.
pub proof fn lemma_split_chars(s: Seq<char>, sep: char, c: char)
    requires
        !s.contains(c),
    ensures
        forall|i: int|
            0 <= i < split_on(s, sep).len() ==> !(#[trigger] split_on(s, sep)[i]).contains(c),
    decreases s.len(),
{
    if s.len() > 0 {
        let init = s.drop_last();
        assert(s.last() == s[s.len() - 1]);
        assert forall|i: int| 0 <= i < init.len() implies init[i] != c by {
            assert(s[i] == init[i]);
        }
        lemma_split_chars(init, sep, c);
        lemma_split_nonempty(init, sep);
        let parts = split_on(init, sep);
        assert forall|i: int| 0 <= i < split_on(s, sep).len() implies !(#[trigger] split_on(
            s,
            sep,
        )[i]).contains(c) by {
            if i < parts.len() - 1 {
                assert(split_on(s, sep)[i] == parts[i]);
            } else if s.last() != sep {
                assert(!parts.last().contains(c)) by {
                    assert(parts.last() == parts[parts.len() - 1]);
                }
                let grown = parts.last().push(s.last());
                assert(split_on(s, sep)[i] == grown);
                assert forall|k: int| 0 <= k < grown.len() implies grown[k] != c by {
                    if k < parts.last().len() {
                        assert(parts.last()[k] == grown[k]);
                    }
                }
            } else if i == parts.len() - 1 {
                assert(split_on(s, sep)[i] == parts[i]);
            }
        }
    }
}

// ----------------------------------------------------------------- sorting

/// Strictly ascending in the order of strings.
pub open spec fn ascending(ks: Seq<Seq<char>>) -> bool {
    forall|i: int, j: int| 0 <= i < j < ks.len() ==> text_less(#[trigger] ks[i], #[trigger] ks[j])
}

/// One string more is in a longer prefix of a list.
pub proof fn lemma_take_grows(ks: Seq<Seq<char>>, i: int)
    requires
        0 <= i < ks.len(),
    ensures
        forall|t: Seq<char>| #[trigger]
            ks.take(i + 1).contains(t) <==> (ks.take(i).contains(t) || t == ks[i]),
{
    let then = ks.take(i);
    let now = ks.take(i + 1);
    assert forall|t: Seq<char>| #[trigger] now.contains(t) <==> (then.contains(t) || t == ks[i]) by {
        assert(now[i] == ks[i]);
        if then.contains(t) {
            assert(now[then.index_of(t)] == t);
        }
        if now.contains(t) && t != ks[i] {
            assert(then[now.index_of(t)] == t);
        }
    }
}

/// Puts `key` at its place among ascending strings, unless it is there already.
pub fn insert_sorted(keys: &mut Vec<String>, key: String)
    requires
        ascending(texts(old(keys)@)),
    ensures
        ascending(texts(final(keys)@)),
        forall|k: Seq<char>| #[trigger]
            texts(final(keys)@).contains(k) <==> (texts(old(keys)@).contains(k) || k == key@),
{
    let ghost before = texts(keys@);
    let ghost added = key@;
    let mut i: usize = 0;
    while i < keys.len() && less(keys[i].as_str(), key.as_str())
        invariant
            i <= keys@.len(),
            texts(keys@) == before,
            added == key@,
            forall|j: int| 0 <= j < i ==> text_less(#[trigger] before[j], added),
        decreases keys.len() - i,
    {
        proof {
            assert(before[i as int] == keys@[i as int]@);
        }
        i = i + 1;
    }
    if i < keys.len() && text_eq(keys[i].as_str(), key.as_str()) {
        proof {
            assert(before[i as int] == added);
        }
        return ;
    }
    keys.insert(i, key);
    proof {
        let after = texts(keys@);
        let n = i as int;
        assert(after =~= before.insert(n, added));
        if n < before.len() {
            assert(before[n] == after[n + 1]);
            lemma_text_less_order(added, before[n], added);
        }
        assert forall|a: int, b: int| 0 <= a < b < after.len() implies text_less(
            #[trigger] after[a],
            #[trigger] after[b],
        ) by {
            let x = if a < n {
                a
            } else {
                a - 1
            };
            let y = if b < n {
                b
            } else {
                b - 1
            };
            if a == n {
                if b > n + 1 {
                    assert(text_less(before[n], before[y]));
                    lemma_text_less_order(added, before[n], before[y]);
                }
            } else if b == n {
                assert(text_less(before[a], added));
            } else {
                assert(text_less(before[x], before[y]));
            }
        }
        assert forall|k: Seq<char>| #[trigger] after.contains(k) <==> (before.contains(k) || k
            == added) by {
            if before.contains(k) {
                let x = before.index_of(k);
                assert(before[x] == k);
                assert(after[if x < n {
                    x
                } else {
                    x + 1
                }] == k);
            }
            if after.contains(k) {
                let y = after.index_of(k);
                assert(after[y] == k);
                if y != n {
                    assert(before[if y < n {
                        y
                    } else {
                        y - 1
                    }] == k);
                }
            }
            assert(after[n] == added);
        }
    }
}

/// Ascending strings are determined by which strings they are.
pub proof fn lemma_ascending_unique(a: Seq<Seq<char>>, b: Seq<Seq<char>>)
    requires
        ascending(a),
        ascending(b),
        forall|k: Seq<char>| #[trigger] a.contains(k) <==> b.contains(k),
    ensures
        a == b,
    decreases a.len(),
{
    if a.len() == 0 {
        if b.len() > 0 {
            assert(b.contains(b[0]));
            assert(a.contains(b[0]));
        }
        assert(a =~= b);
    } else {
        let x = a.last();
        assert(a.contains(x));
        assert(b.contains(x));
        let y = b.last();
        assert(b.contains(y));
        assert(a.contains(y));
        let i = a.index_of(y);
        let j = b.index_of(x);
        assert(a[i] == y && b[j] == x);
        if x != y {
            assert(text_less(a[i], a[a.len() - 1]));
            assert(text_less(b[j], b[b.len() - 1]));
            lemma_text_less_order(x, y, x);
        }
        let a1 = a.drop_last();
        let b1 = b.drop_last();
        assert forall|k: Seq<char>| #[trigger] a1.contains(k) <==> b1.contains(k) by {
            lemma_text_less_order(x, x, x);
            if a1.contains(k) {
                let p = a1.index_of(k);
                assert(a[p] == k);
                assert(a.contains(k));
                assert(text_less(a[p], a[a.len() - 1]));
                let q = b.index_of(k);
                assert(b[q] == k);
                assert(q != b.len() - 1);
                assert(b1[q] == k);
            }
            if b1.contains(k) {
                let p = b1.index_of(k);
                assert(b[p] == k);
                assert(b.contains(k));
                assert(a.contains(k));
                assert(text_less(b[p], b[b.len() - 1]));
                let q = a.index_of(k);
                assert(a[q] == k);
                assert(q != a.len() - 1);
                assert(a1[q] == k);
            }
        }
        lemma_ascending_unique(a1, b1);
        assert(a =~= a1.push(x));
        assert(b =~= b1.push(y));
    }
}

// -------------------------------------------------------------------- laws

/// Trimming takes the white space off both ends and nothing else: what stands
/// between white space and itself begins and ends with none is what is left, and
/// of white space alone nothing is left.
pub proof fn law_trimming_takes_white_space_off_the_ends(
    before: Seq<char>,
    middle: Seq<char>,
    behind: Seq<char>,
)
    requires
        forall|i: int| 0 <= i < before.len() ==> is_white_space(#[trigger] before[i]),
        forall|i: int| 0 <= i < behind.len() ==> is_white_space(#[trigger] behind[i]),
        middle.len() > 0 ==> !is_white_space(middle[0]) && !is_white_space(
            middle[middle.len() - 1],
        ),
    ensures
        trimmed(before + middle + behind) == middle,
        trimmed(trimmed(before + middle + behind)) == middle,
        is_white_space(' ') && is_white_space('\t') && is_white_space('\r') && is_white_space(
            '\n',
        ),
        forall|c: char| '!' <= c <= '~' ==> !is_white_space(c),
{
    let drop = |c: char| is_white_space(c);
    let whole = before + middle + behind;
    let start = before.len() as int;
    let end = start + middle.len();
    if middle.len() > 0 {
        assert(whole[start] == middle[0]);
        assert(whole[end - 1] == middle[middle.len() - 1]);
        lemma_trim_range(whole, drop, start, end);
        assert(whole.subrange(start, end) =~= middle);
        lemma_trim_range(middle, drop, 0, middle.len() as int);
        assert(middle.subrange(0, middle.len() as int) =~= middle);
    } else {
        lemma_trim_range(whole, drop, whole.len() as int, whole.len() as int);
        assert(whole.subrange(whole.len() as int, whole.len() as int) =~= middle);
        lemma_trim_range(middle, drop, 0, 0);
        assert(middle.subrange(0, 0) =~= middle);
    }
}

/// Every text is what trimming leaves of it, between white space.
pub proof fn law_trimming_finds_the_middle(s: Seq<char>) -> (r: (Seq<char>, Seq<char>))
    ensures
        s == r.0 + trimmed(s) + r.1,
        forall|i: int| 0 <= i < r.0.len() ==> is_white_space(#[trigger] r.0[i]),
        forall|i: int| 0 <= i < r.1.len() ==> is_white_space(#[trigger] r.1[i]),
        trimmed(s).len() > 0 ==> !is_white_space(trimmed(s)[0]) && !is_white_space(
            trimmed(s)[trimmed(s).len() - 1],
        ),
    decreases s.len(),
{
    let drop = |c: char| is_white_space(c);
    if s.len() > 0 && is_white_space(s.first()) {
        let rest = law_trimming_finds_the_middle(s.drop_first());
        let front = seq![s.first()] + rest.0;
        assert(drop(s.first()));
        assert(trimmed(s) == trimmed(s.drop_first()));
        assert(s =~= seq![s.first()] + s.drop_first());
        assert(s =~= front + trimmed(s) + rest.1);
        assert forall|i: int| 0 <= i < front.len() implies is_white_space(#[trigger] front[i]) by {
            if i > 0 {
                assert(front[i] == rest.0[i - 1]);
            }
        }
        (front, rest.1)
    } else if s.len() > 0 && is_white_space(s.last()) {
        let init = s.drop_last();
        assert(drop(s.last()));
        assert(!drop(s.first()));
        let rest = law_trimming_finds_the_middle(init);
        assert(init.len() > 0);
        assert(init.first() == s.first());
        assert(trimmed(init) == trim_end_by(init, drop));
        assert(trimmed(s) == trim_end_by(s, drop));
        assert(trimmed(s) == trimmed(init));
        assert(s =~= init.push(s.last()));
        assert(s =~= rest.0 + trimmed(s) + rest.1.push(s.last()));
        (rest.0, rest.1.push(s.last()))
    } else {
        assert(trimmed(s) == s);
        assert(s =~= Seq::<char>::empty() + s + Seq::<char>::empty());
        (Seq::empty(), Seq::empty())
    }
}

/// Taking a separator off the ends takes it off as often as it stands there.
pub proof fn law_trimming_takes_a_separator_off_the_ends(
    before: Seq<char>,
    middle: Seq<char>,
    behind: Seq<char>,
    sep: char,
)
    requires
        forall|i: int| 0 <= i < before.len() ==> #[trigger] before[i] == sep,
        forall|i: int| 0 <= i < behind.len() ==> #[trigger] behind[i] == sep,
        middle.len() > 0 ==> middle[0] != sep && middle[middle.len() - 1] != sep,
    ensures
        trimmed_of(before + middle + behind, sep) == middle,
        middle.len() > 0 ==> trimmed_end_of(before + middle + behind, sep) == before + middle,
        trimmed_end_of(behind, sep) == Seq::<char>::empty(),
{
    let drop = only(sep);
    let whole = before + middle + behind;
    let start = before.len() as int;
    let end = start + middle.len();
    if middle.len() > 0 {
        assert(whole[start] == middle[0]);
        assert(whole[end - 1] == middle[middle.len() - 1]);
        lemma_trim_range(whole, drop, start, end);
        assert(whole.subrange(start, end) =~= middle);
        lemma_trim_end_range(whole, drop, end);
        assert(whole.take(end) =~= before + middle);
    } else {
        lemma_trim_range(whole, drop, whole.len() as int, whole.len() as int);
        assert(whole.subrange(whole.len() as int, whole.len() as int) =~= middle);
    }
    lemma_trim_end_range(behind, drop, 0);
    assert(behind.take(0) =~= Seq::<char>::empty());
}

/// What follows a prefix is found exactly where the text begins with it.
pub proof fn law_a_prefix_is_taken_off(prefix: Seq<char>, rest: Seq<char>, s: Seq<char>)
    ensures
        after_prefix(prefix + rest, prefix) == Some(rest),
        after_prefix(s, prefix) matches Some(r) ==> s == prefix + r,
{
    assert((prefix + rest).take(prefix.len() as int) =~= prefix);
    assert((prefix + rest).skip(prefix.len() as int) =~= rest);
    if let Some(r) = after_prefix(s, prefix) {
        assert(s =~= prefix + r);
    }
}

/// Lowering turns the letters `A` to `Z` into `a` to `z` in their places and
/// leaves every other character.
pub proof fn law_lowering_changes_letters_only(s: Seq<char>, i: int)
    requires
        0 <= i < s.len(),
    ensures
        lowered(s).len() == s.len(),
        'A' <= s[i] <= 'Z' ==> lowered(s)[i] as int == s[i] as int + 32,
        !('A' <= s[i] <= 'Z') ==> lowered(s)[i] == s[i],
        lowered(lowered(s)) == lowered(s),
{
    assert(lowered(lowered(s)) =~= lowered(s));
}

/// Texts sort by their first bytes that differ, and a text sorts before every
/// longer text that begins with it.
pub proof fn law_the_first_difference_decides(a: Seq<u8>, b: Seq<u8>, k: int)
    requires
        0 <= k <= a.len(),
        k <= b.len(),
        forall|i: int| 0 <= i < k ==> a[i] == b[i],
    ensures
        k < a.len() && k < b.len() && a[k] != b[k] ==> bytes_less(a, b) == (a[k] < b[k]),
        k == a.len() ==> bytes_less(a, b) == (a.len() < b.len()),
    decreases k,
{
    if k > 0 {
        let x = a.drop_first();
        let y = b.drop_first();
        assert(a[0] == b[0]);
        assert forall|i: int| 0 <= i < k - 1 implies x[i] == y[i] by {
            assert(a[i + 1] == b[i + 1]);
        }
        law_the_first_difference_decides(x, y, k - 1);
    }
}

/// Whether a text is not empty and has no white space around it.
pub open spec fn tight(s: Seq<char>) -> bool {
    s.len() > 0 && !is_white_space(s[0]) && !is_white_space(s[s.len() - 1])
}

/// Whether a text holds nothing but white space.
pub open spec fn blank(s: Seq<char>) -> bool {
    forall|i: int| 0 <= i < s.len() ==> is_white_space(#[trigger] s[i])
}

/// A text without white space around it stays as it is, and of one that is blank
/// nothing is left.
pub proof fn law_tight_texts_stay(s: Seq<char>)
    ensures
        tight(s) ==> trimmed(s) == s,
        blank(s) <==> trimmed(s).len() == 0,
        trimmed(s).len() > 0 ==> tight(trimmed(s)),
{
    let none = Seq::<char>::empty();
    if tight(s) {
        law_trimming_takes_white_space_off_the_ends(none, s, none);
        assert(none + s + none =~= s);
    }
    let around = law_trimming_finds_the_middle(s);
    let n = around.0.len() as int;
    if trimmed(s).len() == 0 {
        assert forall|i: int| 0 <= i < s.len() implies is_white_space(#[trigger] s[i]) by {
            if i < n {
                assert(s[i] == around.0[i]);
            } else {
                assert(s[i] == around.1[i - n]);
            }
        }
    } else {
        assert(s[n] == trimmed(s)[0]);
    }
}

/// Texts are compared by the bytes of their UTF-8 form: the first that differs
/// decides, and a text sorts before every longer one that begins with it.
pub proof fn law_texts_sort_by_their_bytes(a: Seq<char>, b: Seq<char>, k: int)
    requires
        0 <= k <= encode_utf8(a).len(),
        k <= encode_utf8(b).len(),
        forall|i: int| 0 <= i < k ==> encode_utf8(a)[i] == encode_utf8(b)[i],
    ensures
        k < encode_utf8(a).len() && k < encode_utf8(b).len() && encode_utf8(a)[k]
            != encode_utf8(b)[k] ==> text_less(a, b) == (encode_utf8(a)[k] < encode_utf8(b)[k]),
        k == encode_utf8(a).len() ==> text_less(a, b) == (encode_utf8(a).len()
            < encode_utf8(b).len()),
{
    law_the_first_difference_decides(encode_utf8(a), encode_utf8(b), k);
}

} // verus!
