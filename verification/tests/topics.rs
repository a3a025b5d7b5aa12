//! Topic names and filters.

use cangling_broker::topic::{
    filter_matches, is_valid_publish_topic, is_valid_subscribe_filter, is_wildcard_filter,
    multi_level_prefix,
};

#[test]
fn hash_matches_this_level_and_children() {
    assert!(filter_matches("sensor/#", "sensor"));
    assert!(filter_matches("sensor/#", "sensor/temp"));
    assert!(filter_matches("sensor/#", "sensor/a/b"));
    assert!(!filter_matches("sensor/#", "sensors"));
    assert!(!filter_matches("sensor/#", "other/temp"));
    assert!(filter_matches("/ibuser/1/#", "/ibuser/1/dRueErAe"));
    assert!(filter_matches("/ibuser/1/#", "/ibuser/1"));
    assert!(!filter_matches("/ibuser/1/#", "/ibuser/2/dRueErAe"));
    assert!(filter_matches("#", "a"));
    assert!(filter_matches("#", "a/b/c"));
}

#[test]
fn hash_does_not_match_dollar_topics() {
    assert!(!filter_matches("#", "$SYS/load"));
    assert!(!filter_matches("+/load", "$SYS/load"));
    assert!(filter_matches("$SYS/#", "$SYS/load"));
}

#[test]
fn plus_matches_one_level() {
    assert!(filter_matches("sensor/+/temp", "sensor/x/temp"));
    assert!(!filter_matches("sensor/+/temp", "sensor/x/y/temp"));
    assert!(!filter_matches("sensor/+/temp", "sensor/temp"));
}

#[test]
fn rejects_malformed_hash_filters() {
    assert!(!is_valid_subscribe_filter(""));
    assert!(!is_valid_subscribe_filter("sensor#"));
    assert!(!is_valid_subscribe_filter("a/#/b"));
    assert!(!is_valid_subscribe_filter("#/a"));
    assert!(is_valid_subscribe_filter("#"));
    assert!(is_valid_subscribe_filter("sensor/#"));
    assert!(is_valid_subscribe_filter("sensor/+/temp"));
}

#[test]
fn publish_topics_cannot_contain_wildcards() {
    assert!(is_valid_publish_topic("sensor/temp"));
    assert!(!is_valid_publish_topic("sensor/#"));
    assert!(!is_valid_publish_topic("sensor/+/temp"));
    assert!(!is_valid_publish_topic(""));
}

#[test]
fn hash_prefix_extraction() {
    assert_eq!(multi_level_prefix("#"), Some(""));
    assert_eq!(multi_level_prefix("sensor/#"), Some("sensor"));
    assert_eq!(multi_level_prefix("a/b/#"), Some("a/b"));
    assert_eq!(multi_level_prefix("sensor/+/x/#"), None);
    assert_eq!(multi_level_prefix("sensor"), None);
}

#[test]
fn a_plain_filter_selects_only_itself() {
    assert!(filter_matches("jobs/a", "jobs/a"));
    assert!(!filter_matches("jobs/a", "jobs/b"));
    assert!(!filter_matches("jobs/a", "jobs"));
    assert!(!is_wildcard_filter("jobs/a"));
    assert!(is_wildcard_filter("jobs/+"));
    assert!(is_wildcard_filter("#"));
}
