//! JSON text of attributes.
//!
//! Attributes are kept as JSON text. The attributes of a message are read as a
//! value: whether it is JSON, and which members of an object are strings. Those
//! of a consumer are read as a map of strings.
use vstd::prelude::*;

use crate::table::TextMap;
use crate::text;

verus! {

/// String attributes of a message or a consumer.
pub type Attributes = TextMap<String>;

/// A member of a JSON object: its name, and its text if it is a string.
pub struct JsonMember {
    pub name: String,
    pub text: Option<String>,
}

/// What the broker reads of JSON text.
pub enum Json {
    Invalid,
    Object(Vec<JsonMember>),
    Other,
}

pub struct MemberView {
    pub name: Seq<char>,
    pub text: Option<Seq<char>>,
}

pub enum JsonView {
    Invalid,
    Object(Seq<MemberView>),
    Other,
}

impl View for JsonMember {
    type V = MemberView;

    open spec fn view(&self) -> MemberView {
        MemberView { name: self.name@, text: text::opt_text(self.text) }
    }
}

impl View for Json {
    type V = JsonView;

    open spec fn view(&self) -> JsonView {
        match self {
            Json::Invalid => JsonView::Invalid,
            Json::Object(members) => JsonView::Object(members@.map_values(|m: JsonMember| m@)),
            Json::Other => JsonView::Other,
        }
    }
}

/// What `serde_json` reads of JSON text.
pub uninterp spec fn json_of(raw: Seq<char>) -> JsonView;

/// What `serde_json` reads of JSON text into a map of strings: nothing where the
/// text is not an object of strings.
pub uninterp spec fn strings_of(raw: Seq<char>) -> Option<Map<Seq<char>, Seq<char>>>;

/// The JSON text that `serde_json` writes for an object of strings.
pub uninterp spec fn object_text(members: Map<Seq<char>, Seq<char>>) -> Seq<char>;

/// No name twice.
pub open spec fn distinct_names(members: Seq<MemberView>) -> bool {
    forall|i: int, j: int|
        0 <= i < j < members.len() ==> #[trigger] members[i].name != #[trigger] members[j].name
}

/// `serde_json::from_str` into a JSON value. What it reads is a function of the
/// text; the members of an object have distinct names.
#[verifier::external_body]
pub(crate) fn parse_json(raw: &str) -> (r: Json)
    ensures
        r@ == json_of(raw@),
        r@ matches JsonView::Object(members) ==> distinct_names(members),
{
    let text_of = |value: serde_json::Value| match value {
        serde_json::Value::String(text) => Some(text),
        _ => None,
    };
    match serde_json::from_str::<serde_json::Value>(raw) {
        Err(_) => Json::Invalid,
        Ok(serde_json::Value::Object(object)) => Json::Object(
            object.into_iter().map(|(name, value)| JsonMember { name, text: text_of(value) })
                .collect(),
        ),
        Ok(_) => Json::Other,
    }
}

/// The members that pairs of a name and a text make.
pub open spec fn pairs_map(pairs: Seq<(String, String)>) -> Map<Seq<char>, Seq<char>>
    decreases pairs.len(),
{
    if pairs.len() == 0 {
        Map::empty()
    } else {
        pairs_map(pairs.drop_last()).insert(pairs.last().0@, pairs.last().1@)
    }
}

/// `serde_json::from_str` into a map of strings. What it reads is a function of
/// the text.
#[verifier::external_body]
pub(crate) fn parse_strings(raw: &str) -> (r: Option<Vec<(String, String)>>)
    ensures
        strings_of(raw@) == (match r {
            Some(pairs) => Some(pairs_map(pairs@)),
            None => None,
        }),
{
    match serde_json::from_str::<std::collections::HashMap<String, String>>(raw) {
        Ok(members) => Some(members.into_iter().collect()),
        Err(_) => None,
    }
}

/// Whether `json` is an object of strings with exactly the given members.
pub open spec fn is_object_of(json: JsonView, strings: Map<Seq<char>, Seq<char>>) -> bool {
    &&& json matches JsonView::Object(members)
    &&& distinct_names(members)
    &&& all_text(members)
    &&& text_members(members) == strings
}

/// A member name that `serde_json` keeps for itself where it reads a value: an
/// object that begins with it is not read as an object.
pub open spec fn is_reserved(name: Seq<char>) -> bool {
    name == "$serde_json::private::RawValue"@ || name == "$serde_json::private::Number"@
}

/// Whether no member has a name that `serde_json` keeps for itself.
pub open spec fn unreserved(strings: Map<Seq<char>, Seq<char>>) -> bool {
    forall|name: Seq<char>| #[trigger] strings.contains_key(name) ==> !is_reserved(name)
}

/// `serde_json::to_string` of an object whose members are all strings. The text
/// is a function of the members. Read into a map of strings it gives them back;
/// read as a value it does so unless a member has a reserved name. What is read
/// as a value in that case is not stated.
#[verifier::external_body]
pub(crate) fn write_object(pairs: &Vec<(String, String)>) -> (r: String)
    ensures
        r@ == object_text(pairs_map(pairs@)),
        strings_of(r@) == Some(pairs_map(pairs@)),
        unreserved(pairs_map(pairs@)) ==> is_object_of(json_of(r@), pairs_map(pairs@)),
{
    let object: std::collections::BTreeMap<&str, &str> =
        pairs.iter().map(|(name, text)| (name.as_str(), text.as_str())).collect();
    serde_json::to_string(&object).expect("a map of strings is always JSON")
}

/// Whether every member is a string.
pub open spec fn all_text(members: Seq<MemberView>) -> bool {
    forall|i: int| 0 <= i < members.len() ==> (#[trigger] members[i]).text is Some
}

/// The members that are strings.
pub open spec fn text_members(members: Seq<MemberView>) -> Map<Seq<char>, Seq<char>>
    decreases members.len(),
{
    if members.len() == 0 {
        Map::empty()
    } else {
        let rest = text_members(members.drop_last());
        match members.last().text {
            Some(t) => rest.insert(members.last().name, t),
            None => rest,
        }
    }
}

/// The string members of JSON text that is an object; nothing of other text.
pub open spec fn attributes_of(json: JsonView) -> Map<Seq<char>, Seq<char>> {
    match json {
        JsonView::Object(members) => text_members(members),
        _ => Map::empty(),
    }
}

/// The members of JSON text that is an object of strings; nothing of other text.
pub open spec fn string_map_of(raw: Seq<char>) -> Map<Seq<char>, Seq<char>> {
    match strings_of(raw) {
        Some(members) => members,
        None => Map::empty(),
    }
}

/// The string members of `json`.
pub fn string_members(json: &Json) -> (r: Attributes)
    ensures
        r@ == attributes_of(json@),
{
    let mut out: Attributes = TextMap::new();
    match json {
        Json::Object(members) => {
            let ghost views = members@.map_values(|m: JsonMember| m@);
            let mut i: usize = 0;
            proof {
                assert(views.take(0) =~= Seq::<MemberView>::empty());
            }
            while i < members.len()
                invariant
                    i <= members@.len(),
                    views == members@.map_values(|m: JsonMember| m@),
                    out@ == text_members(views.take(i as int)),
                decreases members.len() - i,
            {
                proof {
                    assert(views.take(i + 1).drop_last() =~= views.take(i as int));
                    assert(views.take(i + 1).last() == members@[i as int]@);
                }
                match &members[i].text {
                    Some(t) => out.set(members[i].name.clone(), t.clone()),
                    None => {},
                }
                i = i + 1;
            }
            proof {
                assert(views.take(views.len() as int) =~= views);
            }
        },
        _ => {},
    }
    out
}

/// The members that pairs of a name and a text make.
fn from_pairs(pairs: &Vec<(String, String)>) -> (r: Attributes)
    ensures
        r@ == pairs_map(pairs@),
{
    let mut out: Attributes = TextMap::new();
    let mut i: usize = 0;
    proof {
        assert(pairs@.take(0) =~= Seq::<(String, String)>::empty());
    }
    while i < pairs.len()
        invariant
            i <= pairs@.len(),
            out@ == pairs_map(pairs@.take(i as int)),
        decreases pairs.len() - i,
    {
        proof {
            assert(pairs@.take(i + 1).drop_last() =~= pairs@.take(i as int));
            assert(pairs@.take(i + 1).last() == pairs@[i as int]);
        }
        out.set(pairs[i].0.clone(), pairs[i].1.clone());
        i = i + 1;
    }
    proof {
        assert(pairs@.take(pairs@.len() as int) =~= pairs@);
    }
    out
}

/// The members of JSON text that is an object of strings; nothing of other text.
pub fn string_map(raw: &str) -> (r: Attributes)
    ensures
        r@ == string_map_of(raw@),
{
    match parse_strings(raw) {
        Some(pairs) => from_pairs(&pairs),
        None => TextMap::new(),
    }
}

/// JSON text of attributes.
pub fn attributes_text(attributes: &Attributes) -> (r: String)
    ensures
        r@ == object_text(attributes@),
        string_map_of(r@) == attributes@,
        unreserved(attributes@) ==> json_of(r@) is Object && attributes_of(json_of(r@))
            == attributes@,
{
    let n: usize = attributes.len();
    let mut pairs: Vec<(String, String)> = Vec::new();
    let ghost keys = attributes.key_seq();
    let mut i: usize = 0;
    while i < n
        invariant
            i <= n,
            n == keys.len(),
            keys == attributes.key_seq(),
            keys.no_duplicates(),
            forall|k: Seq<char>| #[trigger]
                pairs_map(pairs@).contains_key(k) <==> keys.take(i as int).contains(k),
            forall|k: Seq<char>| #[trigger]
                pairs_map(pairs@).contains_key(k) ==> attributes@.contains_key(k) && pairs_map(
                    pairs@,
                )[k] == attributes@[k],
        decreases n - i,
    {
        let ghost before = pairs@;
        pairs.push((attributes.key_at(i).clone(), attributes.value_at(i).clone()));
        proof {
            assert(pairs@.drop_last() =~= before);
            let now = keys.take(i + 1);
            let then = keys.take(i as int);
            assert forall|k: Seq<char>| #[trigger]
                pairs_map(pairs@).contains_key(k) <==> now.contains(k) by {
                assert(now[i as int] == keys[i as int]);
                assert(pairs_map(before).contains_key(k) <==> then.contains(k));
                if then.contains(k) {
                    assert(now[then.index_of(k)] == k);
                }
                if now.contains(k) && k != keys[i as int] {
                    assert(then[now.index_of(k)] == k);
                }
            }
            assert forall|k: Seq<char>| #[trigger] pairs_map(pairs@).contains_key(k) implies
                attributes@.contains_key(k) && pairs_map(pairs@)[k] == attributes@[k] by {
                if k != keys[i as int] {
                    assert(pairs_map(before).contains_key(k));
                }
            }
        }
        i = i + 1;
    }
    proof {
        assert(keys.take(n as int) =~= keys);
        assert(pairs_map(pairs@) =~= attributes@) by {
            assert forall|k: Seq<char>| attributes@.contains_key(k) implies pairs_map(
                pairs@,
            ).contains_key(k) by {
                assert(keys.contains(k));
            }
        }
    }
    write_object(&pairs)
}

/// The attributes of an object are its members that are text, each under its own
/// name. Whatever is no object has none.
pub proof fn law_attributes_are_the_text_members(members: Seq<MemberView>, i: int)
    requires
        distinct_names(members),
        0 <= i < members.len(),
    ensures
        attributes_of(JsonView::Object(members)).contains_key(members[i].name)
            <==> members[i].text is Some,
        members[i].text is Some ==> attributes_of(
            JsonView::Object(members),
        )[members[i].name] == members[i].text->0,
        forall|name: Seq<char>| #[trigger]
            attributes_of(JsonView::Object(members)).contains_key(name) ==> exists|k: int|
                0 <= k < members.len() && (#[trigger] members[k]).name == name && members[k].text
                    is Some,
{
    lemma_text_members(members, i);
}

proof fn lemma_text_members(members: Seq<MemberView>, i: int)
    requires
        distinct_names(members),
    ensures
        0 <= i < members.len() ==> (text_members(members).contains_key(members[i].name)
            <==> members[i].text is Some),
        0 <= i < members.len() && members[i].text is Some ==> text_members(
            members,
        )[members[i].name] == members[i].text->0,
        forall|name: Seq<char>| #[trigger]
            text_members(members).contains_key(name) ==> exists|k: int|
                0 <= k < members.len() && (#[trigger] members[k]).name == name && members[k].text
                    is Some,
    decreases members.len(),
{
    if members.len() > 0 {
        let init = members.drop_last();
        assert(distinct_names(init)) by {
            assert forall|a: int, b: int| 0 <= a < b < init.len() implies #[trigger] init[a].name
                != #[trigger] init[b].name by {
                assert(members[a].name != members[b].name);
            }
        }
        lemma_text_members(init, i);
        assert forall|name: Seq<char>| #[trigger]
            text_members(members).contains_key(name) implies exists|k: int|
            0 <= k < members.len() && (#[trigger] members[k]).name == name && members[k].text
                is Some by {
            if text_members(init).contains_key(name) {
                let k = choose|k: int|
                    0 <= k < init.len() && (#[trigger] init[k]).name == name && init[k].text
                        is Some;
                assert(members[k] == init[k]);
            } else {
                assert(members[members.len() - 1].name == name);
            }
        }
        if 0 <= i < init.len() {
            assert(init[i] == members[i]);
            assert(members[i].name != members[members.len() - 1].name);
        } else if i == init.len() {
            if text_members(init).contains_key(members[i].name) {
                let k = choose|k: int|
                    0 <= k < init.len() && (#[trigger] init[k]).name == members[i].name
                        && init[k].text is Some;
                assert(members[k].name != members[i].name);
            }
        }
    }
}

/// Of two pairs with one name the later counts.
pub proof fn law_the_later_pair_counts(pairs: Seq<(String, String)>, i: int)
    requires
        0 <= i < pairs.len(),
        forall|j: int| i < j < pairs.len() ==> (#[trigger] pairs[j]).0@ != pairs[i].0@,
    ensures
        pairs_map(pairs).contains_key(pairs[i].0@),
        pairs_map(pairs)[pairs[i].0@] == pairs[i].1@,
    decreases pairs.len(),
{
    let init = pairs.drop_last();
    if i < init.len() {
        assert(init[i] == pairs[i]);
        assert forall|j: int| i < j < init.len() implies (#[trigger] init[j]).0@ != init[i].0@ by {
            assert(init[j] == pairs[j]);
        }
        law_the_later_pair_counts(init, i);
        assert(pairs[pairs.len() - 1].0@ != pairs[i].0@);
    }
}

} // verus!
