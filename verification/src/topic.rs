//! MQTT 3.1.1 topic names and topic filters (`+` one level, `#` remaining levels).
use vstd::prelude::*;
use vstd::string::*;

use crate::text;

verus! {

/// The levels of a topic name or filter.
pub open spec fn levels(s: Seq<char>) -> Seq<Seq<char>> {
    text::split_on(s, '/')
}

/// The single-level wildcard.
pub open spec fn plus() -> Seq<char> {
    seq!['+']
}

/// The multi-level wildcard.
pub open spec fn hash() -> Seq<char> {
    seq!['#']
}

/// Filter levels against topic levels. A trailing `#` stands for any number of
/// further levels, `+` for exactly one; a `#` anywhere else matches nothing.
pub open spec fn levels_match(filter: Seq<Seq<char>>, topic: Seq<Seq<char>>) -> bool {
    let multi = filter.len() > 0 && filter.last() == hash();
    let fixed = if multi {
        filter.len() - 1
    } else {
        filter.len() as int
    };
    &&& forall|i: int| 0 <= i < fixed ==> #[trigger] filter[i] != hash()
    &&& if multi {
        topic.len() >= fixed
    } else {
        topic.len() == fixed
    }
    &&& forall|i: int|
        0 <= i < fixed ==> (#[trigger] filter[i] == plus() || filter[i] == topic[i])
}

/// Whether the first level of a filter is a wildcard, or starts with `#`.
pub open spec fn wild_root(filter: Seq<char>) -> bool {
    ||| filter == plus()
    ||| filter.len() >= 2 && filter[0] == '+' && filter[1] == '/'
    ||| filter.len() >= 1 && filter[0] == '#'
}

/// Whether `filter` selects `topic`.
pub open spec fn selects(filter: Seq<char>, topic: Seq<char>) -> bool {
    &&& filter.len() > 0
    &&& topic.len() > 0
    &&& !(topic[0] == '$' && wild_root(filter))
    &&& levels_match(levels(filter), levels(topic))
}

/// Whether messages may be published to `topic`.
pub open spec fn valid_publish(topic: Seq<char>) -> bool {
    topic.len() > 0 && !topic.contains('\0') && !topic.contains('+') && !topic.contains('#')
}

/// Whether `filter` contains a wildcard character.
pub open spec fn wild(filter: Seq<char>) -> bool {
    filter.contains('+') || filter.contains('#')
}

/// Whether `filter` is well formed: `#` only as the whole last level, `+` only
/// as a whole level.
pub open spec fn valid_filter(filter: Seq<char>) -> bool {
    let parts = levels(filter);
    &&& filter.len() > 0
    &&& !filter.contains('\0')
    &&& forall|i: int|
        0 <= i < parts.len() ==> {
            ||| #[trigger] parts[i] == plus()
            ||| parts[i] == hash() && i == parts.len() - 1
            ||| !wild(parts[i])
        }
}

/// The literal prefix of a filter that ends in `#` and has no other wildcard.
pub open spec fn prefix_of(filter: Seq<char>) -> Option<Seq<char>> {
    let n = filter.len() as int;
    if filter == hash() {
        Some(Seq::empty())
    } else if n >= 2 && filter[n - 2] == '/' && filter[n - 1] == '#' && n > 2 && !wild(
        filter.take(n - 2),
    ) && valid_filter(filter) {
        Some(filter.take(n - 2))
    } else {
        None
    }
}

/// MQTT 3.1.1 topic-filter matching (`+` one level, `#` remaining levels).
pub fn filter_matches(filter: &str, topic: &str) -> (r: bool)
    ensures
        r == selects(filter@, topic@),
{
    if filter.unicode_len() == 0 || topic.unicode_len() == 0 {
        return false;
    }
    if topic.get_char(0) == '$' && wildcard_at_root(filter) {
        return false;
    }
    let filters: Vec<String> = text::split(filter, '/');
    let topics: Vec<String> = text::split(topic, '/');
    let ghost fs = levels(filter@);
    let ghost ts = levels(topic@);
    proof {
        reveal_strlit("#");
        reveal_strlit("+");
        assert("#"@ =~= hash());
        assert("+"@ =~= plus());
        text::lemma_split_nonempty(filter@, '/');
        assert(fs.len() == filters@.len());
        assert(ts.len() == topics@.len());
        assert(forall|i: int| 0 <= i < fs.len() ==> #[trigger] fs[i] == filters@[i]@);
        assert(forall|i: int| 0 <= i < ts.len() ==> #[trigger] ts[i] == topics@[i]@);
    }
    let mut i: usize = 0;
    while i < filters.len()
        invariant
            i <= filters.len(),
            i <= topics.len(),
            fs.len() == filters@.len(),
            ts.len() == topics@.len(),
            fs.len() > 0,
            forall|k: int| 0 <= k < fs.len() ==> #[trigger] fs[k] == filters@[k]@,
            forall|k: int| 0 <= k < ts.len() ==> #[trigger] ts[k] == topics@[k]@,
            "#"@ == hash(),
            "+"@ == plus(),
            selects(filter@, topic@) == levels_match(fs, ts),
            forall|k: int|
                0 <= k < i ==> #[trigger] fs[k] != hash() && (fs[k] == plus() || fs[k] == ts[k]),
        decreases filters.len() - i,
    {
        assert(fs[i as int] == filters@[i as int]@);
        if text::text_eq(filters[i].as_str(), "#") {
            return i + 1 == filters.len();
        }
        if i >= topics.len() {
            return false;
        }
        assert(ts[i as int] == topics@[i as int]@);
        if !text::text_eq(filters[i].as_str(), "+") && !text::text_eq(
            filters[i].as_str(),
            topics[i].as_str(),
        ) {
            return false;
        }
        i = i + 1;
    }
    i == topics.len()
}

/// Whether messages may be published to `topic`.
pub fn is_valid_publish_topic(topic: &str) -> (r: bool)
    ensures
        r == valid_publish(topic@),
{
    topic.unicode_len() != 0 && !text::contains_char(topic, '\0') && !text::contains_char(topic, '+')
        && !text::contains_char(topic, '#')
}

/// Whether `filter` is a well-formed subscription filter.
pub fn is_valid_subscribe_filter(filter: &str) -> (r: bool)
    ensures
        r == valid_filter(filter@),
{
    if filter.unicode_len() == 0 || text::contains_char(filter, '\0') {
        return false;
    }
    let parts: Vec<String> = text::split(filter, '/');
    let ghost ps = levels(filter@);
    proof {
        reveal_strlit("#");
        reveal_strlit("+");
        assert("#"@ =~= hash());
        assert("+"@ =~= plus());
        assert(hash()[0] == '#');
        assert(plus()[0] == '+');
        assert(forall|i: int| 0 <= i < ps.len() ==> #[trigger] ps[i] == parts@[i]@);
    }
    let mut i: usize = 0;
    while i < parts.len()
        invariant
            i <= parts.len(),
            ps == levels(filter@),
            ps.len() == parts@.len(),
            forall|k: int| 0 <= k < ps.len() ==> #[trigger] ps[k] == parts@[k]@,
            "#"@ == hash(),
            "+"@ == plus(),
            hash().contains('#'),
            filter@.len() > 0,
            !filter@.contains('\0'),
            forall|k: int| 0 <= k < i ==> (#[trigger] ps[k] == plus() || !wild(ps[k])),
        decreases parts.len() - i,
    {
        assert(ps[i as int] == parts@[i as int]@);
        if text::text_eq(parts[i].as_str(), "#") {
            assert(ps[i as int] != plus()) by {
                assert(hash()[0] != plus()[0]);
            }
            return i + 1 == parts.len();
        }
        if !text::text_eq(parts[i].as_str(), "+") {
            if text::contains_char(parts[i].as_str(), '#') || text::contains_char(parts[i].as_str(), '+') {
                return false;
            }
        }
        i = i + 1;
    }
    true
}

/// Whether `filter` contains a wildcard character.
pub fn is_wildcard_filter(filter: &str) -> (r: bool)
    ensures
        r == wild(filter@),
{
    text::contains_char(filter, '+') || text::contains_char(filter, '#')
}

/// `Some("")` for `#`, `Some("a/b")` for `a/b/#`. `None` if this is not a trailing-`#` filter.
pub fn multi_level_prefix(filter: &str) -> (r: Option<&str>)
    ensures
        match r {
            Some(p) => prefix_of(filter@) == Some(p@),
            None => prefix_of(filter@) is None,
        },
{
    proof {
        reveal_strlit("#");
        assert("#"@ =~= hash());
    }
    let n: usize = filter.unicode_len();
    if text::text_eq(filter, "#") {
        let empty: &str = filter.substring_char(0, 0);
        assert(empty@ =~= Seq::<char>::empty());
        return Some(empty);
    }
    if n <= 2 || filter.get_char(n - 2) != '/' || filter.get_char(n - 1) != '#' {
        return None;
    }
    let prefix: &str = filter.substring_char(0, n - 2);
    assert(prefix@ =~= filter@.take(n - 2));
    if !is_wildcard_filter(prefix) && is_valid_subscribe_filter(filter) {
        Some(prefix)
    } else {
        None
    }
}

/// Whether the first level of a filter is a wildcard, or starts with `#`.
fn wildcard_at_root(filter: &str) -> (r: bool)
    ensures
        r == wild_root(filter@),
{
    let n: usize = filter.unicode_len();
    if n == 0 {
        return false;
    }
    let first: char = filter.get_char(0);
    if first == '#' {
        return true;
    }
    assert(n == 1 && first == '+' ==> filter@ =~= plus());
    first == '+' && (n == 1 || filter.get_char(1) == '/')
}

/// A topic that may be published to, used as a filter, selects exactly itself.
pub proof fn law_a_plain_filter_selects_itself(filter: Seq<char>, topic: Seq<char>)
    requires
        valid_publish(filter),
    ensures
        selects(filter, topic) <==> filter == topic,
{
    let f = levels(filter);
    let t = levels(topic);
    text::lemma_split_chars(filter, '/', '#');
    text::lemma_split_chars(filter, '/', '+');
    text::lemma_split_nonempty(filter, '/');
    assert(hash()[0] == '#');
    assert(plus()[0] == '+');
    assert forall|i: int| 0 <= i < f.len() implies #[trigger] f[i] != hash() && f[i] != plus() by {
        assert(!f[i].contains('#'));
        assert(!f[i].contains('+'));
    }
    assert(f.last() == f[f.len() - 1]);
    assert(!wild_root(filter)) by {
        if wild_root(filter) {
            assert(filter[0] == '+' || filter[0] == '#');
            assert(filter.contains(filter[0]));
        }
    }
    text::lemma_split_injective(filter, topic, '/');
    if selects(filter, topic) {
        assert(f =~= t);
    }
}

/// A filter `prefix/#` selects exactly the topic `prefix` and the topics below it.
pub proof fn law_a_prefix_filter_selects_its_subtree(filter: Seq<char>, topic: Seq<char>)
    requires
        prefix_of(filter) is Some,
        filter != hash(),
    ensures
        ({
            let prefix = prefix_of(filter)->0;
            selects(filter, topic) <==> topic.len() > 0 && (topic == prefix || prefix.push(
                '/',
            ).is_prefix_of(topic))
        }),
{
    if topic.len() > 0 {
        let prefix = prefix_of(filter)->0;
        let p = levels(prefix);
        let f = levels(filter);
        let t = levels(topic);
        assert(filter =~= prefix.push('/') + hash());
        text::lemma_split_concat(prefix, hash(), '/');
        assert(!hash().contains('/'));
        text::lemma_split_plain(hash(), '/');
        assert(f =~= p.push(hash()));
        text::lemma_split_nonempty(prefix, '/');
        text::lemma_split_chars(prefix, '/', '#');
        text::lemma_split_chars(prefix, '/', '+');
        assert(hash()[0] == '#');
        assert(plus()[0] == '+');
        assert forall|i: int| 0 <= i < p.len() implies #[trigger] f[i] == p[i] && f[i] != hash() && f[i]
            != plus() by {
            assert(!p[i].contains('#'));
            assert(!p[i].contains('+'));
        }
        assert(!wild_root(filter)) by {
            assert(prefix.contains(prefix[0]));
            assert(filter[0] == prefix[0]);
            if filter == plus() {
                assert(filter[filter.len() - 1] == '#');
            }
        }
        assert(f.last() == hash());
        if levels_match(f, t) {
            assert forall|i: int| 0 <= i < p.len() implies t[i] == p[i] by {
                assert(f[i] == p[i]);
            }
            assert(t.take(p.len() as int) =~= p);
            if t.len() == p.len() {
                assert(t =~= p);
                text::lemma_split_injective(topic, prefix, '/');
            } else {
                let rest = t.skip(p.len() as int);
                assert(t =~= p + rest);
                text::lemma_join_concat(p, rest, '/');
                text::lemma_join_of_split(topic, '/');
                text::lemma_join_of_split(prefix, '/');
                assert(topic == prefix.push('/') + text::join_with(rest, '/'));
                assert(prefix.push('/').is_prefix_of(topic));
            }
        }
        if topic == prefix {
            assert(levels_match(f, t));
        } else if prefix.push('/').is_prefix_of(topic) {
            let below = topic.skip(prefix.len() as int + 1);
            assert(topic =~= prefix.push('/') + below);
            text::lemma_split_concat(prefix, below, '/');
            assert forall|i: int| 0 <= i < p.len() implies #[trigger] f[i] == t[i] by {
                assert(f[i] == p[i]);
            }
            assert(levels_match(f, t));
        }
    }
}

/// The filter `#` selects exactly the topics that do not start with `$`.
pub proof fn law_a_hash_selects_everything(topic: Seq<char>)
    ensures
        selects(hash(), topic) <==> topic.len() > 0 && topic[0] != '$',
{
    assert(!hash().contains('/'));
    text::lemma_split_plain(hash(), '/');
    assert(levels(hash()).last() == hash());
    assert(hash()[0] == '#');
}

/// A `+` as the last level stands for exactly one level: below a plain name it
/// selects that name with one further level, whatever that level holds, and
/// nothing deeper.
pub proof fn law_a_plus_stands_for_one_level(name: Seq<char>, topic: Seq<char>)
    requires
        name.len() > 0,
        !name.contains('+'),
        !name.contains('#'),
    ensures
        selects(name.push('/').push('+'), topic) <==> exists|level: Seq<char>|
            !level.contains('/') && topic == #[trigger] (name.push('/') + level),
{
    let filter = name.push('/').push('+');
    let p = levels(name);
    let f = levels(filter);
    let t = levels(topic);
    assert(plus()[0] == '+');
    assert(hash()[0] == '#');
    assert(filter =~= name.push('/') + plus());
    text::lemma_split_concat(name, plus(), '/');
    assert(!plus().contains('/'));
    text::lemma_split_plain(plus(), '/');
    assert(f =~= p.push(plus()));
    text::lemma_split_nonempty(name, '/');
    text::lemma_split_chars(name, '/', '#');
    text::lemma_split_chars(name, '/', '+');
    assert forall|i: int| 0 <= i < p.len() implies #[trigger] f[i] == p[i] && f[i] != hash() && f[i]
        != plus() by {
        assert(!p[i].contains('#'));
        assert(!p[i].contains('+'));
    }
    assert(f[p.len() as int] == plus());
    assert(f.last() == plus());
    assert(!wild_root(filter)) by {
        assert(name.contains(name[0]));
        assert(filter[0] == name[0]);
    }
    if selects(filter, topic) {
        assert forall|i: int| 0 <= i < p.len() implies t[i] == p[i] by {
            assert(f[i] == p[i]);
        }
        let level = t.last();
        assert(t =~= p + seq![level]);
        text::lemma_join_concat(p, seq![level], '/');
        text::lemma_join_of_split(topic, '/');
        text::lemma_join_of_split(name, '/');
        reveal_with_fuel(text::join_with, 2);
        assert(topic =~= name.push('/') + level);
        lemma_levels_are_plain(topic);
        assert(t[t.len() - 1] == level);
    }
    if exists|level: Seq<char>|
        !level.contains('/') && topic == #[trigger] (name.push('/') + level) {
        let level = choose|level: Seq<char>|
            !level.contains('/') && topic == #[trigger] (name.push('/') + level);
        text::lemma_split_concat(name, level, '/');
        text::lemma_split_plain(level, '/');
        assert(t =~= p.push(level));
        assert(topic[0] == name[0]);
        assert(levels_match(f, t));
    }
}

/// No level holds a slash.
proof fn lemma_levels_are_plain(s: Seq<char>)
    ensures
        forall|i: int| 0 <= i < levels(s).len() ==> !(#[trigger] levels(s)[i]).contains('/'),
    decreases s.len(),
{
    if s.len() > 0 {
        let init = s.drop_last();
        lemma_levels_are_plain(init);
        text::lemma_split_nonempty(init, '/');
        let before = levels(init);
        let all = levels(s);
        assert forall|i: int| 0 <= i < all.len() implies !(#[trigger] all[i]).contains('/') by {
            if s.last() == '/' {
                if i < before.len() {
                    assert(all[i] == before[i]);
                }
            } else {
                if i < before.len() - 1 {
                    assert(all[i] == before[i]);
                } else {
                    assert(!before[before.len() - 1].contains('/'));
                    let grown = before.last().push(s.last());
                    assert(all[i] == grown);
                    if grown.contains('/') {
                        let k = grown.index_of('/');
                        if k < before.last().len() {
                            assert(before.last()[k] == '/');
                        }
                    }
                }
            }
        }
    } else {
        assert(levels(s)[0].len() == 0);
    }
}

/// How often a character occurs.
pub open spec fn occurrences(s: Seq<char>, c: char) -> nat
    decreases s.len(),
{
    if s.len() == 0 {
        0
    } else {
        occurrences(s.drop_last(), c) + (if s.last() == c {
            1nat
        } else {
            0nat
        })
    }
}

proof fn lemma_count_of_levels(s: Seq<char>)
    ensures
        levels(s).len() == occurrences(s, '/') + 1,
    decreases s.len(),
{
    if s.len() > 0 {
        lemma_count_of_levels(s.drop_last());
    }
}

/// A filter without `#` selects only topics with as many levels, that is with as
/// many slashes, as it has. One whose last level is `#` selects no topic that
/// lacks one of the levels before that.
pub proof fn law_selected_topics_have_the_levels_of_the_filter(
    filter: Seq<char>,
    topic: Seq<char>,
)
    requires
        selects(filter, topic),
    ensures
        !filter.contains('#') ==> occurrences(topic, '/') == occurrences(filter, '/'),
        occurrences(topic, '/') + 1 >= occurrences(filter, '/'),
{
    lemma_count_of_levels(filter);
    lemma_count_of_levels(topic);
    if !filter.contains('#') {
        text::lemma_split_nonempty(filter, '/');
        text::lemma_split_chars(filter, '/', '#');
        let f = levels(filter);
        assert(!f[f.len() - 1].contains('#'));
        assert(hash()[0] == '#');
    }
}

/// Filters and topics are matched level by level. A first level that is not `#`
/// takes one level of the topic, any level if it is `+` and else an equal one,
/// and what follows it takes what follows in the topic. Behind the end of the
/// topic only a last `#` is taken.
pub proof fn law_levels_are_matched_one_by_one(
    first: Seq<char>,
    further: Seq<char>,
    level: Seq<char>,
    below: Seq<char>,
)
    requires
        !first.contains('/'),
        !level.contains('/'),
        first != hash(),
    ensures
        levels_match(levels(first.push('/') + further), levels(level.push('/') + below)) <==> (
        first == plus() || first == level) && levels_match(levels(further), levels(below)),
        levels_match(levels(first.push('/') + further), levels(level)) <==> (first == plus()
            || first == level) && further == hash(),
        levels_match(levels(first), levels(level.push('/') + below)) == false,
        levels_match(levels(first), levels(level)) <==> first == plus() || first == level,
        levels_match(levels(hash()), levels(level)),
        levels_match(levels(hash()), levels(level.push('/') + below)),
        levels_match(levels(hash().push('/') + further), levels(level)) == false,
        levels_match(levels(hash().push('/') + further), levels(level.push('/') + below)) == false,
{
    let g = levels(further);
    let s = levels(below);
    assert(hash()[0] == '#');
    assert(!hash().contains('/'));
    text::lemma_split_plain(first, '/');
    text::lemma_split_plain(level, '/');
    text::lemma_split_plain(hash(), '/');
    text::lemma_split_concat(first, further, '/');
    text::lemma_split_concat(hash(), further, '/');
    text::lemma_split_concat(level, below, '/');
    text::lemma_split_nonempty(further, '/');
    text::lemma_split_nonempty(below, '/');
    let f = levels(first.push('/') + further);
    let t = levels(level.push('/') + below);
    assert(f =~= seq![first] + g);
    assert(t =~= seq![level] + s);
    assert(f.last() == g.last());
    assert(f[0] == first);
    assert(t[0] == level);
    assert(forall|i: int| 0 <= i < g.len() ==> f[i + 1] == #[trigger] g[i]);
    assert(forall|i: int| 0 <= i < s.len() ==> t[i + 1] == #[trigger] s[i]);
    assert(forall|i: int| 1 <= i < f.len() ==> #[trigger] f[i] == g[i - 1]);
    assert(forall|i: int| 1 <= i < t.len() ==> #[trigger] t[i] == s[i - 1]);
    if levels_match(f, t) {
        assert forall|i: int| 0 <= i < g.len() - (if g.last() == hash() { 1int } else { 0int }) implies
            #[trigger] g[i] != hash() && (g[i] == plus() || g[i] == s[i]) by {
            assert(f[i + 1] == g[i]);
        }
        assert(levels_match(g, s));
    }
    let one = seq![level];
    if levels_match(f, one) {
        assert(g.len() == 1 && g.last() == hash());
        assert(g =~= seq![hash()]);
        text::lemma_split_injective(further, hash(), '/');
    }
    if further == hash() && (first == plus() || first == level) {
        assert(levels_match(f, one));
    }
    let none = levels(hash().push('/') + further);
    assert(none =~= seq![hash()] + g);
    assert(none[0] == hash());
    assert(seq![hash()].last() == hash());
}

/// A topic that begins with `$` is not selected by a filter that begins with a
/// wildcard level. For every other topic the levels alone decide, and so they do
/// for a filter that begins with a name.
pub proof fn law_wildcards_do_not_reach_reserved_topics(
    first: Seq<char>,
    further: Seq<char>,
    topic: Seq<char>,
)
    requires
        !first.contains('/'),
        first.len() > 0,
        topic.len() > 0,
    ensures
        (first == plus() || first == hash()) && topic[0] == '$' ==> !selects(first, topic)
            && !selects(first.push('/') + further, topic),
        topic[0] != '$' || (first[0] != '+' && first[0] != '#') ==> selects(first, topic)
            == levels_match(levels(first), levels(topic)) && selects(
            first.push('/') + further,
            topic,
        ) == levels_match(levels(first.push('/') + further), levels(topic)),
{
    assert(plus()[0] == '+');
    assert(hash()[0] == '#');
    let long = first.push('/') + further;
    assert(long[0] == first[0]);
    if first == plus() {
        assert(long[1] == '/');
    }
}

/// Filters are checked level by level: every level is `+`, or without a wildcard,
/// and the last one may be `#`. No level may hold the character zero.
pub proof fn law_filters_are_checked_level_by_level(first: Seq<char>, further: Seq<char>)
    requires
        !first.contains('/'),
    ensures
        valid_filter(first) <==> first.len() > 0 && !first.contains('\0') && (first == seq!['+']
            || first == seq!['#'] || (!first.contains('+') && !first.contains('#'))),
        valid_filter(first.push('/') + further) <==> !first.contains('\0') && (first == seq!['+']
            || (!first.contains('+') && !first.contains('#'))) && (further.len() == 0
            || valid_filter(further)),
{
    text::lemma_split_plain(first, '/');
    text::lemma_split_concat(first, further, '/');
    text::lemma_split_nonempty(further, '/');
    let whole = first.push('/') + further;
    let g = levels(further);
    let f = levels(whole);
    assert(hash().contains('#')) by {
        assert(hash()[0] == '#');
    }
    assert(plus() != hash()) by {
        assert(plus()[0] == '+');
    }
    assert(levels(first)[0] == first);
    assert(f =~= seq![first] + g);
    assert(f[0] == first);
    assert(forall|i: int| 0 <= i < g.len() ==> f[i + 1] == #[trigger] g[i]);
    assert(forall|i: int| 1 <= i < f.len() ==> #[trigger] f[i] == g[i - 1]);
    assert(whole.contains('\0') <==> first.contains('\0') || further.contains('\0')) by {
        if first.contains('\0') {
            assert(whole[first.index_of('\0')] == '\0');
        }
        if further.contains('\0') {
            assert(whole[first.len() + 1 + further.index_of('\0')] == '\0');
        }
        if whole.contains('\0') {
            let k = whole.index_of('\0');
            if k < first.len() {
                assert(first[k] == '\0');
            } else {
                assert(further[k - first.len() - 1] == '\0');
            }
        }
    }
    if valid_filter(whole) && further.len() > 0 {
        assert forall|i: int| 0 <= i < g.len() implies {
            ||| #[trigger] g[i] == plus()
            ||| g[i] == hash() && i == g.len() - 1
            ||| !wild(g[i])
        } by {
            assert(f[i + 1] == g[i]);
        }
    }
    if further.len() == 0 {
        assert(!further.contains('/'));
        text::lemma_split_plain(further, '/');
        assert(g[0] == further);
    }
}

/// A filter has a prefix exactly if it is `#`, or a plain name followed by `/#`;
/// the prefix is that name.
pub proof fn law_the_prefix_is_what_stands_before_the_hash(filter: Seq<char>, name: Seq<char>)
    requires
        name.len() > 0,
        !name.contains('\0'),
        !name.contains('+'),
        !name.contains('#'),
    ensures
        prefix_of(seq!['#']) == Some(Seq::<char>::empty()),
        prefix_of(name.push('/').push('#')) == Some(name),
        prefix_of(filter) matches Some(p) ==> (filter == seq!['#'] && p.len() == 0) || (filter
            == p.push('/').push('#') && p.len() > 0 && !p.contains('+') && !p.contains('#')),
{
    let long = name.push('/').push('#');
    assert(long.take(long.len() - 2) =~= name);
    assert(long[long.len() - 2] == '/');
    text::lemma_split_concat(name, hash(), '/');
    assert(long =~= name.push('/') + hash());
    assert(hash()[0] == '#');
    assert(!hash().contains('/'));
    text::lemma_split_plain(hash(), '/');
    text::lemma_split_chars(name, '/', '#');
    text::lemma_split_chars(name, '/', '+');
    let f = levels(long);
    let p = levels(name);
    assert(f =~= p.push(hash()));
    assert(!long.contains('\0')) by {
        if long.contains('\0') {
            assert(name[long.index_of('\0')] == '\0');
        }
    }
    assert forall|i: int| 0 <= i < f.len() implies {
        ||| #[trigger] f[i] == plus()
        ||| f[i] == hash() && i == f.len() - 1
        ||| !wild(f[i])
    } by {
        if i < p.len() {
            assert(f[i] == p[i]);
        }
    }
    assert(valid_filter(long));
    assert(long != hash());
    if let Some(q) = prefix_of(filter) {
        if filter != hash() {
            assert(filter =~= q.push('/').push('#'));
        }
    }
}

/// Messages may be published under a filter exactly if it selects one topic only
/// by its name: it is a well-formed filter without a wildcard.
pub proof fn law_publish_topics_are_plain_filters(topic: Seq<char>)
    ensures
        valid_publish(topic) <==> valid_filter(topic) && !topic.contains('+') && !topic.contains(
            '#',
        ),
        wild(topic) <==> topic.contains('+') || topic.contains('#'),
{
    if !topic.contains('+') && !topic.contains('#') {
        text::lemma_split_chars(topic, '/', '#');
        text::lemma_split_chars(topic, '/', '+');
    }
}

} // verus!
