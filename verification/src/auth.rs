//! Who may talk to the broker, and what clients tell of themselves.
use vstd::prelude::*;
use vstd::string::*;

use crate::json::Attributes;
use crate::text;

verus! {

pub const METADATA_AUTHORIZATION: &'static str = "authorization";

pub const METADATA_X_AUTH_TOKEN: &'static str = "x-auth-token";

pub const METADATA_X_CLIENT_VERSION: &'static str = "x-client-version";

pub const METADATA_X_CLIENT_HOST: &'static str = "x-client-host";

/// What a call without the token is told.
pub const UNAUTHENTICATED: &'static str =
    "missing or invalid token; send authorization: Bearer <CL_BROKER_AUTH_TOKEN>";

#[verifier::external_type_specification]
#[verifier::external_body]
pub struct ExMetadataMap(tonic::metadata::MetadataMap);

/// The text under each key of a metadata map whose first value is text.
pub uninterp spec fn metadata_texts(metadata: tonic::metadata::MetadataMap) -> Map<
    Seq<char>,
    Seq<char>,
>;

/// The text under a key.
pub open spec fn text_under(texts: Map<Seq<char>, Seq<char>>, key: Seq<char>) -> Option<Seq<char>> {
    if texts.contains_key(key) {
        Some(texts[key])
    } else {
        None
    }
}

/// `tonic::metadata::MetadataMap::get` and `MetadataValue::to_str` of the value
/// found: the text under a key, if there is a value and it is text.
#[verifier::external_body]
fn metadata_text(metadata: &tonic::metadata::MetadataMap, key: &str) -> (r: Option<String>)
    ensures
        text::opt_text(r) == text_under(metadata_texts(*metadata), key@),
{
    metadata.get(key).and_then(|value| value.to_str().ok()).map(|value| value.to_string())
}

/// A text that is not blank, without the white space around it.
pub open spec fn told(value: Option<Seq<char>>) -> Option<Seq<char>> {
    match value {
        Some(v) => if text::trimmed(v).len() == 0 {
            None
        } else {
            Some(text::trimmed(v))
        },
        None => None,
    }
}

/// A token that is not blank, without the white space around it.
pub fn normalize(token: Option<&str>) -> (r: Option<String>)
    ensures
        text::opt_text(r) == told(text::opt_str(token)),
{
    match token {
        Some(value) => {
            let value: &str = text::trim(value);
            if value.is_empty() {
                None
            } else {
                Some(value.to_string())
            }
        },
        None => None,
    }
}

/// Whether the presented token is the expected one. The time taken depends on
/// the lengths alone.
pub fn tokens_match(expected: &str, presented: Option<&str>) -> (r: bool)
    ensures
        r == (text::opt_str(presented) == Some(expected@)),
{
    let presented: &str = match presented {
        Some(value) => value,
        None => {
            return false;
        },
    };
    proof {
        text::lemma_utf8_injective(expected@, presented@);
    }
    let left: &[u8] = expected.as_bytes();
    let right: &[u8] = presented.as_bytes();
    if left.len() != right.len() {
        return false;
    }
    let mut difference: u8 = 0;
    let mut i: usize = 0;
    while i < left.len()
        invariant
            i <= left@.len(),
            left@.len() == right@.len(),
            difference == 0 <==> forall|k: int| 0 <= k < i ==> left@[k] == right@[k],
        decreases left.len() - i,
    {
        let (a, b, d): (u8, u8, u8) = (left[i], right[i], difference);
        difference = d | (a ^ b);
        proof {
            assert((d | (a ^ b)) == 0u8 <==> d == 0u8 && a == b) by (bit_vector);
        }
        i = i + 1;
    }
    proof {
        if difference == 0 {
            assert(left@ =~= right@);
        }
    }
    difference == 0
}

/// What follows the word `Bearer` in an authorization, or all of it where the
/// word is missing.
pub open spec fn credentials(value: Seq<char>) -> Seq<char> {
    let value = text::trimmed(value);
    match text::after_prefix(value, "Bearer "@) {
        Some(rest) => text::trimmed(rest),
        None => match text::after_prefix(value, "bearer "@) {
            Some(rest) => text::trimmed(rest),
            None => text::trimmed(value),
        },
    }
}

/// The token in an authorization.
pub fn bearer_or_raw(value: &str) -> (r: &str)
    ensures
        r@ == credentials(value@),
{
    let value: &str = text::trim(value);
    let rest: &str = match text::strip_prefix(value, "Bearer ") {
        Some(rest) => rest,
        None => match text::strip_prefix(value, "bearer ") {
            Some(rest) => rest,
            None => value,
        },
    };
    text::trim(rest)
}

/// The token in an authorization that holds one.
pub open spec fn bearer_token(authorization: Option<Seq<char>>) -> Option<Seq<char>> {
    match authorization {
        Some(value) => if credentials(value).len() == 0 {
            None
        } else {
            Some(credentials(value))
        },
        None => None,
    }
}

fn read_authorization(authorization: Option<&str>) -> (r: Option<String>)
    ensures
        text::opt_text(r) == bearer_token(text::opt_str(authorization)),
{
    match authorization {
        Some(value) => {
            let token: &str = bearer_or_raw(value);
            if token.is_empty() {
                None
            } else {
                Some(token.to_string())
            }
        },
        None => None,
    }
}

/// `first`, or `second` where there is no first.
pub open spec fn first_of(first: Option<Seq<char>>, second: Option<Seq<char>>) -> Option<
    Seq<char>,
> {
    match first {
        Some(value) => Some(value),
        None => second,
    }
}

/// The text of a header that is not blank; else empty.
pub open spec fn header_value(value: Option<Seq<char>>) -> Seq<char> {
    match told(value) {
        Some(v) => v,
        None => Seq::empty(),
    }
}

/// What a client told in a header.
pub fn header_or_empty(value: Option<&str>) -> (r: String)
    ensures
        r@ == header_value(text::opt_str(value)),
{
    match normalize(value) {
        Some(v) => v,
        None => {
            let r: String = String::new();
            assert(r@ =~= Seq::<char>::empty());
            r
        },
    }
}

fn as_slice(value: &Option<String>) -> (r: Option<&str>)
    ensures
        text::opt_str(r) == text::opt_text(*value),
{
    match value {
        Some(v) => Some(v.as_str()),
        None => None,
    }
}

/// The version that the client told; empty where it told none.
pub fn metadata_client_version(metadata: &tonic::metadata::MetadataMap) -> (r: String)
    ensures
        r@ == header_value(text_under(metadata_texts(*metadata), METADATA_X_CLIENT_VERSION@)),
{
    header_or_empty(as_slice(&metadata_text(metadata, METADATA_X_CLIENT_VERSION)))
}

/// The host that the client told; empty where it told none.
pub fn metadata_client_host(metadata: &tonic::metadata::MetadataMap) -> (r: String)
    ensures
        r@ == header_value(text_under(metadata_texts(*metadata), METADATA_X_CLIENT_HOST@)),
{
    header_or_empty(as_slice(&metadata_text(metadata, METADATA_X_CLIENT_HOST)))
}

/// The token of a call: in the authorization, else in the header of its own.
pub open spec fn call_token(
    authorization: Option<Seq<char>>,
    x_auth_token: Option<Seq<char>>,
) -> Option<Seq<char>> {
    first_of(bearer_token(authorization), told(x_auth_token))
}

/// The token of a call, from its two headers.
pub fn header_token(authorization: Option<&str>, x_auth_token: Option<&str>) -> (r: Option<String>)
    ensures
        text::opt_text(r) == call_token(text::opt_str(authorization), text::opt_str(x_auth_token)),
{
    match read_authorization(authorization) {
        Some(token) => Some(token),
        None => normalize(x_auth_token),
    }
}

/// The token of a call.
pub fn metadata_token(metadata: &tonic::metadata::MetadataMap) -> (r: Option<String>)
    ensures
        text::opt_text(r) == call_token(
            text_under(metadata_texts(*metadata), METADATA_AUTHORIZATION@),
            text_under(metadata_texts(*metadata), METADATA_X_AUTH_TOKEN@),
        ),
{
    header_token(
        as_slice(&metadata_text(metadata, METADATA_AUTHORIZATION)),
        as_slice(&metadata_text(metadata, METADATA_X_AUTH_TOKEN)),
    )
}

/// Attributes in which a value that was told is kept under a name.
pub open spec fn noted(
    attributes: Map<Seq<char>, Seq<char>>,
    name: Seq<char>,
    value: Seq<char>,
) -> Map<Seq<char>, Seq<char>> {
    if value.len() == 0 {
        attributes
    } else {
        attributes.insert(name, value)
    }
}

/// Keeps the version and the host that a client told as attributes.
pub fn note_identity(attributes: &mut Attributes, version: String, host: String)
    ensures
        final(attributes)@ == noted(
            noted(old(attributes)@, "version"@, version@),
            "host"@,
            host@,
        ),
{
    if !version.as_str().is_empty() {
        attributes.set("version".to_string(), version);
    }
    if !host.as_str().is_empty() {
        attributes.set("host".to_string(), host);
    }
}

/// Keeps what a client told in its metadata as attributes.
pub fn apply_client_metadata(
    metadata: &tonic::metadata::MetadataMap,
    attributes: &mut Attributes,
)
    ensures
        final(attributes)@ == noted(
            noted(
                old(attributes)@,
                "version"@,
                header_value(text_under(metadata_texts(*metadata), METADATA_X_CLIENT_VERSION@)),
            ),
            "host"@,
            header_value(text_under(metadata_texts(*metadata), METADATA_X_CLIENT_HOST@)),
        ),
{
    note_identity(
        attributes,
        metadata_client_version(metadata),
        metadata_client_host(metadata),
    );
}

/// The token in one `name=value` pair of a query.
pub open spec fn pair_token(pair: Seq<char>) -> Option<Seq<char>> {
    match text::after_prefix(pair, "token="@) {
        Some(value) => if value.len() == 0 {
            None
        } else {
            Some(value)
        },
        None => None,
    }
}

/// The token in the first pair that holds one.
pub open spec fn first_token(pairs: Seq<Seq<char>>) -> Option<Seq<char>>
    decreases pairs.len(),
{
    if pairs.len() == 0 {
        None
    } else {
        first_of(first_token(pairs.drop_last()), pair_token(pairs.last()))
    }
}

/// The token in a query.
pub open spec fn token_in_query(query: Option<Seq<char>>) -> Option<Seq<char>> {
    match query {
        Some(q) => first_token(text::split_on(q, '&')),
        None => None,
    }
}

fn query_token(query: Option<&str>) -> (r: Option<String>)
    ensures
        text::opt_text(r) == token_in_query(text::opt_str(query)),
{
    let line: &str = match query {
        Some(line) => line,
        None => {
            return None;
        },
    };
    let pairs: Vec<String> = text::split(line, '&');
    let ghost all = text::texts(pairs@);
    let mut i: usize = 0;
    while i < pairs.len()
        invariant
            i <= pairs@.len(),
            all == text::texts(pairs@),
            text::opt_str(query) == Some(line@),
            all == text::split_on(line@, '&'),
            first_token(all.take(i as int)) is None,
        decreases pairs.len() - i,
    {
        proof {
            assert(all.take(i + 1).drop_last() =~= all.take(i as int));
            assert(all.take(i + 1).last() == pairs@[i as int]@);
        }
        match text::strip_prefix(pairs[i].as_str(), "token=") {
            Some(value) => {
                if !value.is_empty() {
                    proof {
                        lemma_first_token(all, i as int);
                    }
                    return Some(value.to_string());
                }
            },
            None => {},
        }
        i = i + 1;
    }
    proof {
        assert(all.take(all.len() as int) =~= all);
    }
    None
}

proof fn lemma_first_token(pairs: Seq<Seq<char>>, i: int)
    requires
        0 <= i < pairs.len(),
        first_token(pairs.take(i)) is None,
        pair_token(pairs[i]) is Some,
    ensures
        first_token(pairs) == pair_token(pairs[i]),
    decreases pairs.len(),
{
    if i == pairs.len() - 1 {
        assert(pairs.drop_last() =~= pairs.take(i));
    } else {
        assert(pairs.drop_last().take(i) =~= pairs.take(i));
        lemma_first_token(pairs.drop_last(), i);
    }
}

/// The token of an HTTP request: in the authorization, else in the query.
pub open spec fn request_token(authorization: Option<Seq<char>>, query: Option<Seq<char>>) -> Option<
    Seq<char>,
> {
    first_of(bearer_token(authorization), token_in_query(query))
}

/// The token of an HTTP request.
pub fn http_token(authorization: Option<&str>, query: Option<&str>) -> (r: Option<String>)
    ensures
        text::opt_text(r) == request_token(text::opt_str(authorization), text::opt_str(query)),
{
    match read_authorization(authorization) {
        Some(token) => Some(token),
        None => query_token(query),
    }
}

/// Whether a token opens the broker. Where no token is expected, all may pass.
pub open spec fn opens(expected: Option<Seq<char>>, presented: Option<Seq<char>>) -> bool {
    expected is None || expected == presented
}

/// Lets those calls pass that present the token.
pub struct AuthInterceptor {
    token: Option<String>,
}

impl View for AuthInterceptor {
    type V = Option<Seq<char>>;

    closed spec fn view(&self) -> Option<Seq<char>> {
        text::opt_text(self.token)
    }
}

impl AuthInterceptor {
    pub fn new(token: Option<String>) -> (r: Self)
        ensures
            r@ == told(text::opt_text(token)),
    {
        AuthInterceptor { token: normalize(as_slice(&token)) }
    }

    /// Whether a token is expected.
    pub fn enabled(&self) -> (r: bool)
        ensures
            r == (self@ is Some),
    {
        self.token.is_some()
    }

    /// Whether a call that presents this token may pass.
    pub fn admits_token(&self, presented: Option<&str>) -> (r: bool)
        ensures
            r == opens(self@, text::opt_str(presented)),
    {
        match &self.token {
            Some(expected) => tokens_match(expected.as_str(), presented),
            None => true,
        }
    }

    /// Whether a call may pass.
    pub fn admits(&self, metadata: &tonic::metadata::MetadataMap) -> (r: bool)
        ensures
            r == opens(
                self@,
                call_token(
                    text_under(metadata_texts(*metadata), METADATA_AUTHORIZATION@),
                    text_under(metadata_texts(*metadata), METADATA_X_AUTH_TOKEN@),
                ),
            ),
    {
        self.admits_token(as_slice(&metadata_token(metadata)))
    }
}

/// Where a token is expected, only that token opens the broker; where none is,
/// nothing is asked.
pub proof fn law_only_the_token_opens(expected: Option<Seq<char>>, presented: Option<Seq<char>>)
    ensures
        expected is None ==> opens(expected, presented),
        expected is Some && presented is None ==> !opens(expected, presented),
        expected is Some && opens(expected, presented) ==> presented == expected,
{
}

/// A token counts without the white space around it, and a blank one as none.
pub proof fn law_a_blank_token_is_none(value: Seq<char>)
    ensures
        told(None) is None,
        text::blank(value) ==> told(Some(value)) is None,
        text::tight(value) ==> told(Some(value)) == Some(value),
        told(Some(value)) matches Some(v) ==> text::tight(v),
        text::tight(value) ==> header_value(Some(value)) == value,
        text::blank(value) ==> header_value(Some(value)).len() == 0,
        header_value(None).len() == 0,
{
    text::law_tight_texts_stay(value);
}

/// The token of an authorization is what follows the word `Bearer`, written with a
/// capital or a small letter, and all of it where that word is missing.
pub proof fn law_the_token_follows_the_word_bearer(token: Seq<char>)
    requires
        text::tight(token),
    ensures
        bearer_token(Some("Bearer "@ + token)) == Some(token),
        bearer_token(Some("bearer "@ + token)) == Some(token),
        !"Bearer "@.is_prefix_of(token) && !"bearer "@.is_prefix_of(token) ==> bearer_token(
            Some(token),
        ) == Some(token),
        bearer_token(None) is None,
{
    reveal_strlit("Bearer ");
    reveal_strlit("bearer ");
    text::law_tight_texts_stay(token);
    let a = "Bearer "@ + token;
    let b = "bearer "@ + token;
    assert(a[0] == 'B' && b[0] == 'b');
    assert(a[a.len() - 1] == token[token.len() - 1]);
    assert(b[b.len() - 1] == token[token.len() - 1]);
    text::law_tight_texts_stay(a);
    text::law_tight_texts_stay(b);
    text::law_a_prefix_is_taken_off("Bearer "@, token, a);
    text::law_a_prefix_is_taken_off("bearer "@, token, b);
    assert(!"Bearer "@.is_prefix_of(b)) by {
        if "Bearer "@.is_prefix_of(b) {
            assert(b.subrange(0, 7)[0] == b[0]);
            assert("Bearer "@[0] == 'B');
        }
    }
}

/// A blank authorization holds no token.
pub proof fn law_a_blank_authorization_holds_no_token(value: Seq<char>)
    requires
        text::blank(value),
    ensures
        bearer_token(Some(value)) is None,
{
    reveal_strlit("Bearer ");
    reveal_strlit("bearer ");
    text::law_tight_texts_stay(value);
    let v = text::trimmed(value);
    text::law_tight_texts_stay(v);
}

/// A call presents the token of its authorization, and where that has none the one
/// under `x-auth-token`. A request presents the token of its authorization, and
/// where that has none the one in its query.
pub proof fn law_the_authorization_comes_first(
    authorization: Option<Seq<char>>,
    other: Option<Seq<char>>,
)
    ensures
        bearer_token(authorization) is Some ==> call_token(authorization, other) == bearer_token(
            authorization,
        ) && request_token(authorization, other) == bearer_token(authorization),
        bearer_token(authorization) is None ==> call_token(authorization, other) == told(other)
            && request_token(authorization, other) == token_in_query(other),
{
}

/// The token in a query is the value of its first pair that is named `token` and
/// is not empty. Pairs of other names are passed over.
pub proof fn law_the_token_in_a_query(
    before: Seq<char>,
    pair: Seq<char>,
    value: Seq<char>,
)
    requires
        !pair.contains('&'),
        !value.contains('&'),
    ensures
        value.len() > 0 ==> token_in_query(Some("token="@ + value)) == Some(value),
        token_in_query(Some("token="@)) is None,
        token_in_query(None) is None,
        !"token="@.is_prefix_of(pair) ==> token_in_query(Some(pair)) is None,
        !"token="@.is_prefix_of(pair) ==> token_in_query(Some(before.push('&') + pair))
            == token_in_query(Some(before)),
        token_in_query(Some(before)) is Some ==> token_in_query(Some(before.push('&') + pair))
            == token_in_query(Some(before)),
        token_in_query(Some(before)) is None && value.len() > 0 ==> token_in_query(
            Some(before.push('&') + ("token="@ + value)),
        ) == Some(value),
{
    reveal_strlit("token=");
    let own = "token="@ + value;
    assert(!own.contains('&')) by {
        if own.contains('&') {
            let k = own.index_of('&');
            if k >= 6 {
                assert(value[k - 6] == '&');
            }
        }
    }
    let bare = "token="@;
    assert(!bare.contains('&'));
    text::lemma_split_plain(own, '&');
    text::lemma_split_plain(bare, '&');
    text::lemma_split_plain(pair, '&');
    text::lemma_split_concat(before, pair, '&');
    text::lemma_split_concat(before, own, '&');
    text::law_a_prefix_is_taken_off(bare, value, own);
    text::law_a_prefix_is_taken_off(bare, Seq::empty(), bare);
    assert(bare + Seq::<char>::empty() =~= bare);
    let parts = text::split_on(before, '&');
    reveal_with_fuel(first_token, 2);
    assert(seq![own].drop_last() =~= Seq::<Seq<char>>::empty());
    assert(seq![bare].drop_last() =~= Seq::<Seq<char>>::empty());
    assert(seq![pair].drop_last() =~= Seq::<Seq<char>>::empty());
    assert((parts + seq![pair]).drop_last() =~= parts);
    assert((parts + seq![own]).drop_last() =~= parts);
}

/// Where a token is expected, whoever presents it is let in.
pub proof fn law_the_token_opens(token: Seq<char>, presented: Seq<char>)
    ensures
        opens(Some(token), Some(presented)) <==> presented == token,
        !opens(Some(token), None),
        opens(None, Some(presented)),
        opens(None, None),
{
}

/// An attribute is noted under its name where it says something, and the others
/// stay.
pub proof fn law_a_blank_attribute_is_not_noted(
    attributes: Map<Seq<char>, Seq<char>>,
    name: Seq<char>,
    value: Seq<char>,
    other: Seq<char>,
)
    requires
        other != name,
    ensures
        value.len() == 0 ==> noted(attributes, name, value) == attributes,
        value.len() > 0 ==> noted(attributes, name, value).contains_key(name) && noted(
            attributes,
            name,
            value,
        )[name] == value,
        noted(attributes, name, value).contains_key(other) <==> attributes.contains_key(other),
        attributes.contains_key(other) ==> noted(attributes, name, value)[other]
            == attributes[other],
{
}

/// White space before the word, behind it and behind the token does not count.
pub proof fn law_white_space_around_a_token_does_not_count(
    before: Seq<char>,
    between: Seq<char>,
    token: Seq<char>,
    behind: Seq<char>,
)
    requires
        text::blank(before),
        text::blank(between),
        text::blank(behind),
        text::tight(token),
    ensures
        told(Some(before + token + behind)) == Some(token),
        header_value(Some(before + token + behind)) == token,
        bearer_token(Some(before + ("Bearer "@ + (between + token)) + behind)) == Some(token),
        bearer_token(Some(before + ("bearer "@ + (between + token)) + behind)) == Some(token),
{
    reveal_strlit("Bearer ");
    reveal_strlit("bearer ");
    text::law_trimming_takes_white_space_off_the_ends(before, token, behind);
    let long = "Bearer "@ + (between + token);
    let short = "bearer "@ + (between + token);
    assert(long[0] == 'B' && long[long.len() - 1] == token[token.len() - 1]);
    assert(short[0] == 'b' && short[short.len() - 1] == token[token.len() - 1]);
    text::law_trimming_takes_white_space_off_the_ends(before, long, behind);
    text::law_trimming_takes_white_space_off_the_ends(before, short, behind);
    text::law_a_prefix_is_taken_off("Bearer "@, between + token, long);
    text::law_a_prefix_is_taken_off("bearer "@, between + token, short);
    text::law_trimming_takes_white_space_off_the_ends(between, token, Seq::empty());
    assert(between + token + Seq::<char>::empty() =~= between + token);
    assert(!"Bearer "@.is_prefix_of(short)) by {
        if "Bearer "@.is_prefix_of(short) {
            assert(short.subrange(0, 7)[0] == short[0]);
            assert("Bearer "@[0] == 'B');
        }
    }
}

/// What a call carries under a name is found under that name alone.
pub proof fn law_a_header_is_found_under_its_name(
    texts: Map<Seq<char>, Seq<char>>,
    key: Seq<char>,
    value: Seq<char>,
    other: Seq<char>,
)
    requires
        other != key,
    ensures
        text_under(texts.insert(key, value), key) == Some(value),
        text_under(texts.insert(key, value), other) == text_under(texts, other),
        text_under(texts.remove(key), key) is None,
{
}

} // verus!
