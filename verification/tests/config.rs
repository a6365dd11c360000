//! What the connection flags stand for.

use std::time::Duration;
use stryke_kafka::config::KafkaConn;

fn base_conn() -> KafkaConn {
    KafkaConn {
        brokers: Some("localhost:9092".into()),
        security_protocol: None,
        sasl_mechanism: None,
        sasl_username: None,
        sasl_password: None,
        ssl_ca: None,
        ssl_cert: None,
        ssl_key: None,
        ssl_key_password: None,
        extra_conf: vec![],
        timeout_ms: 5_000,
        client_id: "test-client".into(),
    }
}

#[test]
fn timeout_converts_ms_to_duration() {
    let mut c = base_conn();
    c.timeout_ms = 12_345;
    assert_eq!(c.timeout(), Duration::from_millis(12_345));
}

#[test]
fn timeout_zero_allowed() {
    let mut c = base_conn();
    c.timeout_ms = 0;
    assert_eq!(c.timeout(), Duration::from_millis(0));
}

#[test]
fn build_config_requires_brokers() {
    let mut c = base_conn();
    c.brokers = None;
    let err = c.build_config().unwrap_err();
    assert!(err.message.contains("brokers"));
}

#[test]
fn build_config_sets_bootstrap_and_client_id() {
    let c = base_conn();
    let cfg = c.build_config().unwrap();
    assert_eq!(cfg.get("bootstrap.servers"), Some("localhost:9092"));
    assert_eq!(cfg.get("client.id"), Some("test-client"));
    assert_eq!(cfg.get("socket.timeout.ms"), Some("5000"));
}

#[test]
fn build_config_omits_unset_security_keys() {
    let cfg = base_conn().build_config().unwrap();
    assert_eq!(cfg.get("security.protocol"), None);
    assert_eq!(cfg.get("sasl.mechanism"), None);
    assert_eq!(cfg.get("sasl.username"), None);
    assert_eq!(cfg.get("ssl.ca.location"), None);
}

#[test]
fn build_config_propagates_sasl_and_ssl_fields() {
    let mut c = base_conn();
    c.security_protocol = Some("SASL_SSL".into());
    c.sasl_mechanism = Some("PLAIN".into());
    c.sasl_username = Some("alice".into());
    c.sasl_password = Some("hunter2".into());
    c.ssl_ca = Some("/etc/ssl/ca.pem".into());
    c.ssl_cert = Some("/etc/ssl/c.pem".into());
    c.ssl_key = Some("/etc/ssl/k.pem".into());
    c.ssl_key_password = Some("kpw".into());
    let cfg = c.build_config().unwrap();
    assert_eq!(cfg.get("security.protocol"), Some("SASL_SSL"));
    assert_eq!(cfg.get("sasl.mechanism"), Some("PLAIN"));
    assert_eq!(cfg.get("sasl.username"), Some("alice"));
    assert_eq!(cfg.get("sasl.password"), Some("hunter2"));
    assert_eq!(cfg.get("ssl.ca.location"), Some("/etc/ssl/ca.pem"));
    assert_eq!(cfg.get("ssl.certificate.location"), Some("/etc/ssl/c.pem"));
    assert_eq!(cfg.get("ssl.key.location"), Some("/etc/ssl/k.pem"));
    assert_eq!(cfg.get("ssl.key.password"), Some("kpw"));
}

#[test]
fn build_config_extra_conf_applied_in_order() {
    let mut c = base_conn();
    c.extra_conf = vec![
        "linger.ms=5".into(),
        "compression.type=snappy".into(),
        "client.id=override".into(), // last-wins
    ];
    let cfg = c.build_config().unwrap();
    assert_eq!(cfg.get("linger.ms"), Some("5"));
    assert_eq!(cfg.get("compression.type"), Some("snappy"));
    // Later -X k=v overrides earlier explicit field of same key.
    assert_eq!(cfg.get("client.id"), Some("override"));
}

#[test]
fn build_config_extra_conf_with_equals_in_value_splits_first() {
    let mut c = base_conn();
    c.extra_conf = vec!["sasl.jaas.config=org.x.PlainLoginModule required user=alice".into()];
    let cfg = c.build_config().unwrap();
    // First '=' boundary preserves '=' inside the value.
    assert_eq!(
        cfg.get("sasl.jaas.config"),
        Some("org.x.PlainLoginModule required user=alice"),
    );
}

#[test]
fn build_config_extra_conf_malformed_errors() {
    let mut c = base_conn();
    c.extra_conf = vec!["no-equals".into()];
    let err = c.build_config().unwrap_err();
    assert!(err.message.contains("no-equals"));
}

#[test]
fn build_config_multi_broker_list_preserved() {
    let mut c = base_conn();
    c.brokers = Some("b1:9092,b2:9092,b3:9092".into());
    let cfg = c.build_config().unwrap();
    assert_eq!(cfg.get("bootstrap.servers"), Some("b1:9092,b2:9092,b3:9092"));
}

#[test]
fn build_config_socket_timeout_matches_timeout_ms() {
    let mut c = base_conn();
    c.timeout_ms = 42_000;
    let cfg = c.build_config().unwrap();
    assert_eq!(cfg.get("socket.timeout.ms"), Some("42000"));
}

#[test]
fn build_config_empty_extra_conf_ok() {
    let cfg = base_conn().build_config().unwrap();
    assert_eq!(cfg.get("linger.ms"), None);
}

#[test]
fn build_config_client_id_with_dots() {
    let mut c = base_conn();
    c.client_id = "app.prod.worker".into();
    assert_eq!(c.build_config().unwrap().get("client.id"), Some("app.prod.worker"));
}

#[test]
fn build_config_sasl_password_only_without_username() {
    let mut c = base_conn();
    c.sasl_password = Some("secret".into());
    let cfg = c.build_config().unwrap();
    assert_eq!(cfg.get("sasl.username"), None);
    assert_eq!(cfg.get("sasl.password"), Some("secret"));
}

#[test]
fn timeout_large_ms() {
    let mut c = base_conn();
    c.timeout_ms = 600_000;
    assert_eq!(c.timeout(), Duration::from_millis(600_000));
}

#[test]
fn build_config_extra_conf_empty_value() {
    let mut c = base_conn();
    c.extra_conf = vec!["allow.auto.create.topics=".into()];
    assert_eq!(c.build_config().unwrap().get("allow.auto.create.topics"), Some(""));
}

#[test]
fn build_config_security_protocol_plaintext() {
    let mut c = base_conn();
    c.security_protocol = Some("PLAINTEXT".into());
    assert_eq!(c.build_config().unwrap().get("security.protocol"), Some("PLAINTEXT"));
}

#[test]
fn build_config_ssl_ca_only() {
    let mut c = base_conn();
    c.ssl_ca = Some("/etc/ssl/ca.pem".into());
    let cfg = c.build_config().unwrap();
    assert_eq!(cfg.get("ssl.ca.location"), Some("/etc/ssl/ca.pem"));
    assert_eq!(cfg.get("ssl.certificate.location"), None);
}

#[test]
fn build_config_brokers_single_host() {
    let mut c = base_conn();
    c.brokers = Some("kafka:9092".into());
    assert_eq!(c.build_config().unwrap().get("bootstrap.servers"), Some("kafka:9092"));
}

#[test]
fn build_config_extra_conf_overrides_bootstrap() {
    let mut c = base_conn();
    c.extra_conf = vec!["bootstrap.servers=override:9092".into()];
    assert_eq!(c.build_config().unwrap().get("bootstrap.servers"), Some("override:9092"));
}

#[test]
fn build_config_sasl_mechanism_only() {
    let mut c = base_conn();
    c.sasl_mechanism = Some("SCRAM-SHA-512".into());
    assert_eq!(
        c.build_config().unwrap().get("sasl.mechanism"),
        Some("SCRAM-SHA-512"),
    );
}

#[test]
fn build_config_ssl_cert_and_key_without_ca() {
    let mut c = base_conn();
    c.ssl_cert = Some("/c.pem".into());
    c.ssl_key = Some("/k.pem".into());
    let cfg = c.build_config().unwrap();
    assert_eq!(cfg.get("ssl.certificate.location"), Some("/c.pem"));
    assert_eq!(cfg.get("ssl.key.location"), Some("/k.pem"));
    assert_eq!(cfg.get("ssl.ca.location"), None);
}

#[test]
fn timeout_zero_ms() {
    let mut c = base_conn();
    c.timeout_ms = 0;
    assert_eq!(c.timeout(), Duration::from_millis(0));
}

#[test]
fn build_config_extra_conf_multiple_same_key_last_wins() {
    let mut c = base_conn();
    c.extra_conf = vec!["a=1".into(), "a=2".into()];
    assert_eq!(c.build_config().unwrap().get("a"), Some("2"));
}

#[test]
fn build_config_security_protocol_sasl_plaintext() {
    let mut c = base_conn();
    c.security_protocol = Some("SASL_PLAINTEXT".into());
    assert_eq!(
        c.build_config().unwrap().get("security.protocol"),
        Some("SASL_PLAINTEXT"),
    );
}

#[test]
fn build_config_brokers_with_spaces_preserved() {
    let mut c = base_conn();
    c.brokers = Some(" host:9092 ".into());
    assert_eq!(
        c.build_config().unwrap().get("bootstrap.servers"),
        Some(" host:9092 "),
    );
}

#[test]
fn build_config_ssl_key_password_only() {
    let mut c = base_conn();
    c.ssl_key_password = Some("pw".into());
    assert_eq!(c.build_config().unwrap().get("ssl.key.password"), Some("pw"));
}

#[test]
fn build_config_sasl_username_only() {
    let mut c = base_conn();
    c.sasl_username = Some("alice".into());
    assert_eq!(c.build_config().unwrap().get("sasl.username"), Some("alice"));
}

#[test]
fn build_config_extra_conf_numeric_key() {
    let mut c = base_conn();
    c.extra_conf = vec!["socket.keepalive.enable=1".into()];
    assert_eq!(
        c.build_config().unwrap().get("socket.keepalive.enable"),
        Some("1"),
    );
}

#[test]
fn timeout_one_ms() {
    let mut c = base_conn();
    c.timeout_ms = 1;
    assert_eq!(c.timeout(), Duration::from_millis(1));
}

#[test]
fn build_config_brokers_ipv6_literal() {
    let mut c = base_conn();
    c.brokers = Some("[::1]:9092".into());
    assert_eq!(
        c.build_config().unwrap().get("bootstrap.servers"),
        Some("[::1]:9092"),
    );
}

#[test]
fn build_config_security_protocol_ssl() {
    let mut c = base_conn();
    c.security_protocol = Some("SSL".into());
    assert_eq!(c.build_config().unwrap().get("security.protocol"), Some("SSL"));
}

#[test]
fn build_config_client_id_from_conn() {
    assert_eq!(
        base_conn().build_config().unwrap().get("client.id"),
        Some("test-client"),
    );
}

#[test]
fn build_config_extra_conf_trims_nothing_on_value() {
    let mut c = base_conn();
    c.extra_conf = vec!["k= v ".into()];
    assert_eq!(c.build_config().unwrap().get("k"), Some(" v "));
}

#[test]
fn build_config_sasl_plain_mechanism() {
    let mut c = base_conn();
    c.sasl_mechanism = Some("PLAIN".into());
    assert_eq!(c.build_config().unwrap().get("sasl.mechanism"), Some("PLAIN"));
}

#[test]
fn build_config_multiple_extra_conf_keys() {
    let mut c = base_conn();
    c.extra_conf = vec!["a=1".into(), "b=2".into()];
    let cfg = c.build_config().unwrap();
    assert_eq!(cfg.get("a"), Some("1"));
    assert_eq!(cfg.get("b"), Some("2"));
}

#[test]
fn timeout_five_seconds() {
    let mut c = base_conn();
    c.timeout_ms = 5_000;
    assert_eq!(c.timeout(), Duration::from_millis(5_000));
}

#[test]
fn build_config_brokers_port_only() {
    let mut c = base_conn();
    c.brokers = Some("localhost:9092".into());
    assert_eq!(
        c.build_config().unwrap().get("bootstrap.servers"),
        Some("localhost:9092"),
    );
}

#[test]
fn build_config_ssl_key_password_set() {
    let mut c = base_conn();
    c.ssl_key_password = Some("pw".into());
    assert_eq!(c.build_config().unwrap().get("ssl.key.password"), Some("pw"));
}

#[test]
fn build_config_no_security_protocol_by_default() {
    assert_eq!(base_conn().build_config().unwrap().get("security.protocol"), None);
}

#[test]
fn build_config_socket_timeout_matches() {
    let mut c = base_conn();
    c.timeout_ms = 15_000;
    assert_eq!(c.build_config().unwrap().get("socket.timeout.ms"), Some("15000"));
}

#[test]
fn build_config_sasl_username_password() {
    let mut c = base_conn();
    c.sasl_username = Some("u".into());
    c.sasl_password = Some("p".into());
    let cfg = c.build_config().unwrap();
    assert_eq!(cfg.get("sasl.username"), Some("u"));
    assert_eq!(cfg.get("sasl.password"), Some("p"));
}

#[test]
fn build_config_ssl_ca_location() {
    let mut c = base_conn();
    c.ssl_ca = Some("/etc/ca.pem".into());
    assert_eq!(c.build_config().unwrap().get("ssl.ca.location"), Some("/etc/ca.pem"));
}

#[test]
fn timeout_one_second() {
    let mut c = base_conn();
    c.timeout_ms = 1_000;
    assert_eq!(c.timeout(), Duration::from_secs(1));
}

#[test]
fn build_config_client_id_from_base_conn() {
    assert_eq!(
        base_conn().build_config().unwrap().get("client.id"),
        Some("test-client"),
    );
}

#[test]
fn build_config_extra_conf_overwrites_broker() {
    let mut c = base_conn();
    c.brokers = Some("a:9092".into());
    c.extra_conf = vec!["bootstrap.servers=b:9092".into()];
    assert_eq!(
        c.build_config().unwrap().get("bootstrap.servers"),
        Some("b:9092"),
    );
}

#[test]
fn build_config_sasl_mechanism_scram() {
    let mut c = base_conn();
    c.sasl_mechanism = Some("SCRAM-SHA-512".into());
    assert_eq!(
        c.build_config().unwrap().get("sasl.mechanism"),
        Some("SCRAM-SHA-512"),
    );
}
