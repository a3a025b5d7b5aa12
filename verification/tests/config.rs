//! Settings of the broker.

use cangling_broker::config::{normalize_web_base, sqlite_file_path, Config};

#[test]
fn normalize_web_base_empty_or_root() {
    assert_eq!(normalize_web_base(""), None);
    assert_eq!(normalize_web_base("   "), None);
    assert_eq!(normalize_web_base("/"), None);
    assert_eq!(normalize_web_base("//"), None);
}

#[test]
fn normalize_web_base_prefix() {
    assert_eq!(normalize_web_base("msg").as_deref(), Some("/msg"));
    assert_eq!(normalize_web_base("/msg").as_deref(), Some("/msg"));
    assert_eq!(normalize_web_base("/msg/").as_deref(), Some("/msg"));
    assert_eq!(normalize_web_base("  /msg/  ").as_deref(), Some("/msg"));
}

#[test]
fn every_door_listens_on_every_address() {
    let config = Config::test_default();
    assert_eq!(config.grpc_listen_addr(), ([0, 0, 0, 0], 7500));
    assert_eq!(config.status_listen_addr(), ([0, 0, 0, 0], 7501));
    assert_eq!(config.mqtt_listen_addr(), ([0, 0, 0, 0], 7883));
    assert_eq!(config.mqtt_ws_listen_addr(), ([0, 0, 0, 0], 8083));
}

#[test]
fn the_database_stands_in_the_data_directory() {
    let mut config = Config::test_default();
    assert_eq!(config.log_dir(), None);
    config.data_dir = Some("/var/lib/broker".to_string());
    assert_eq!(config.database_url(), "sqlite:///var/lib/broker/queue.db");
    assert_eq!(
        sqlite_file_path(&config.database_url()).as_deref(),
        Some("/var/lib/broker/queue.db")
    );
    assert_eq!(config.log_dir().as_deref(), Some("/var/lib/broker/logs"));
    assert_eq!(sqlite_file_path("sqlite:///a/q.db").as_deref(), Some("/a/q.db"));
    assert_eq!(sqlite_file_path("sqlite://host/q.db"), None);
    assert_eq!(sqlite_file_path("postgres:q"), None);
}

#[test]
fn a_message_stays_invisible_while_it_may_be_answered() {
    let mut config = Config::test_default();
    assert_eq!(config.visibility_secs(), 3);
    config.ack_timeout_secs = 0;
    assert_eq!(config.visibility_secs(), 1);
    config.log_keep_files = 5;
    assert_eq!(config.log_archives(), 4);
    config.log_keep_files = 2;
    assert_eq!(config.log_archives(), 1);
    config.log_keep_files = 1;
    assert_eq!(config.log_archives(), 0);
    config.log_keep_files = 0;
    assert_eq!(config.log_archives(), 0);
}

#[test]
fn mqtt_is_served_where_it_is_switched_on() {
    let mut config = Config::test_default();
    assert!(config.serves_mqtt_tcp());
    assert!(config.serves_mqtt_ws());
    config.mqtt_enabled = false;
    assert!(!config.serves_mqtt_tcp());
    assert!(!config.serves_mqtt_ws());
    assert!(!config.serves_mqtt_on_status());
}
