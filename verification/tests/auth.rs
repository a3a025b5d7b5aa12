//! Tokens and the identity that a caller tells.

use cangling_broker::auth::{
    apply_client_metadata, bearer_or_raw, header_or_empty, header_token, http_token,
    metadata_client_host, metadata_client_version, metadata_token, normalize, note_identity,
    tokens_match, AuthInterceptor, METADATA_AUTHORIZATION, METADATA_X_AUTH_TOKEN,
    METADATA_X_CLIENT_HOST, METADATA_X_CLIENT_VERSION,
};
use cangling_broker::json::Attributes;
use tonic::metadata::MetadataMap;

#[test]
fn accepts_bearer_and_raw() {
    assert_eq!(bearer_or_raw("Bearer secret"), "secret");
    assert_eq!(bearer_or_raw("secret"), "secret");
}

#[test]
fn rejects_wrong_length() {
    assert!(!tokens_match("abc", Some("ab")));
    assert!(tokens_match("abc", Some("abc")));
    assert!(!tokens_match("abc", None));
}

#[test]
fn reads_client_version_header() {
    let mut metadata = MetadataMap::new();
    assert_eq!(metadata_client_version(&metadata), "");
    metadata.insert(
        METADATA_X_CLIENT_VERSION,
        "java/0.1.29".parse().unwrap(),
    );
    assert_eq!(metadata_client_version(&metadata), "java/0.1.29");
}

#[test]
fn the_token_comes_from_either_header() {
    let mut metadata = MetadataMap::new();
    assert_eq!(metadata_token(&metadata), None);
    metadata.insert(METADATA_X_AUTH_TOKEN, "raw".parse().unwrap());
    assert_eq!(metadata_token(&metadata).as_deref(), Some("raw"));
    metadata.insert(METADATA_AUTHORIZATION, "Bearer first".parse().unwrap());
    assert_eq!(metadata_token(&metadata).as_deref(), Some("first"));
    assert_eq!(header_token(None, None), None);
}

#[test]
fn only_the_token_opens_the_door() {
    let open = AuthInterceptor::new(None);
    assert!(!open.enabled());
    assert!(open.admits(&MetadataMap::new()));

    let closed = AuthInterceptor::new(Some("secret".to_string()));
    assert!(closed.enabled());
    assert!(!closed.admits(&MetadataMap::new()));
    let mut metadata = MetadataMap::new();
    metadata.insert(METADATA_AUTHORIZATION, "Bearer secret".parse().unwrap());
    assert!(closed.admits(&metadata));
    metadata.insert(METADATA_AUTHORIZATION, "Bearer other!".parse().unwrap());
    assert!(!closed.admits(&metadata));
    assert!(!closed.admits_token(Some("secre")));
    assert!(closed.admits_token(Some("secret")));
}

#[test]
fn a_blank_token_is_no_token() {
    assert_eq!(normalize(None), None);
    assert_eq!(normalize(Some("   ")), None);
    assert_eq!(normalize(Some(" key ")).as_deref(), Some("key"));
}

#[test]
fn metadata_tells_who_calls() {
    let mut metadata = MetadataMap::new();
    assert_eq!(metadata_client_host(&metadata), "");
    metadata.insert(METADATA_X_CLIENT_HOST, "worker-1".parse().unwrap());
    metadata.insert(METADATA_X_CLIENT_VERSION, "go/1".parse().unwrap());
    assert_eq!(metadata_client_host(&metadata), "worker-1");
    let mut attributes = Attributes::new();
    apply_client_metadata(&metadata, &mut attributes);
    assert_eq!(attributes.get("host").map(String::as_str), Some("worker-1"));
    assert_eq!(attributes.get("version").map(String::as_str), Some("go/1"));
}

#[test]
fn an_untold_identity_leaves_the_attributes() {
    let mut attributes = Attributes::new();
    attributes.set("host".to_string(), "mine".to_string());
    note_identity(&mut attributes, String::new(), String::new());
    assert_eq!(attributes.len(), 1);
    assert_eq!(attributes.get("host").map(String::as_str), Some("mine"));
    assert_eq!(header_or_empty(None), "");
    assert_eq!(header_or_empty(Some(" x ")), "x");
}

#[test]
fn a_page_may_carry_its_token_in_the_query() {
    assert_eq!(http_token(None, None), None);
    assert_eq!(http_token(Some("Bearer a"), Some("token=b")).as_deref(), Some("a"));
    assert_eq!(http_token(None, Some("x=1&token=b")).as_deref(), Some("b"));
    assert_eq!(http_token(None, Some("x=1")), None);
}
