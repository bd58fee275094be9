use std::time::Duration;
use strata::bridge::{url_to_host_port, BridgeClientConfig, BridgeError, SpawnOptions};

#[test]
fn default_config_caps_concurrency_at_eight() {
    let cfg = BridgeClientConfig::default();
    assert_eq!(cfg.concurrency_limit, 8);
    assert_eq!(cfg.request_timeout, Duration::from_secs(60));
}

#[test]
fn debug_does_not_expose_internal_client() {
    let cfg = BridgeClientConfig::default();
    let dbg_str = format!("{cfg:?}");
    assert!(dbg_str.contains("BridgeClientConfig"));
}

#[test]
fn default_config_endpoint_and_keepalive() {
    let cfg = BridgeClientConfig::default();
    assert_eq!(cfg.endpoint, "http://127.0.0.1:50051");
    assert_eq!(cfg.keepalive, Some(Duration::from_secs(30)));
}

#[test]
fn parses_endpoint_into_host_port() {
    assert_eq!(url_to_host_port("http://127.0.0.1:50051"), Some(("127.0.0.1".into(), 50051)));
    assert_eq!(url_to_host_port("https://ia.local:443/healthz"), Some(("ia.local".into(), 443)));
    assert_eq!(url_to_host_port("invalid"), None);
}

#[test]
fn endpoint_parsing_edge_cases() {
    assert_eq!(url_to_host_port("http://http://h:1"), Some(("h".into(), 1)));
    assert_eq!(url_to_host_port("h:+80"), Some(("h".into(), 80)));
    assert_eq!(url_to_host_port("h:65536"), None);
    assert_eq!(url_to_host_port("h:"), None);
    assert_eq!(url_to_host_port("h:-1"), None);
    assert_eq!(url_to_host_port(":8080/x/y"), Some(("".into(), 8080)));
    assert_eq!(url_to_host_port("a:b:1"), None);
}

#[test]
fn error_display_includes_inner_message() {
    let err = BridgeError::Unreachable("boom".into());
    assert!(err.message().contains("boom"));
    assert_eq!(err.message(), "ia server unreachable: boom");
}

#[test]
fn status_to_bridge_error_mapping() {
    let cases = [(14, "u"), (8, "r"), (13, "i"), (3, "a"), (4, "d"), (10, "x"), (2, "z")];
    let mapped: Vec<BridgeError> =
        cases.iter().map(|(code, msg)| BridgeError::from_grpc(*code, msg.to_string())).collect();
    assert!(matches!(mapped[0], BridgeError::Unreachable(_)));
    assert!(matches!(mapped[1], BridgeError::ResourceExhausted(_)));
    assert!(matches!(mapped[2], BridgeError::Permanent(_)));
    assert!(matches!(mapped[3], BridgeError::Permanent(_)));
    assert!(matches!(mapped[4], BridgeError::Transient(_)));
    assert!(matches!(mapped[5], BridgeError::Transient(_)));
    assert!(matches!(mapped[6], BridgeError::Permanent(_)));
    assert_eq!(BridgeError::Transport("t".into()).message(), "transport error: t");
}

#[test]
fn zero_health_timeout_gets_the_default() {
    let o = SpawnOptions::default().with_default_timeout();
    assert_eq!(o.health_timeout, Duration::from_secs(15));
    let o = SpawnOptions { health_timeout: Duration::from_millis(5), ..SpawnOptions::default() }
        .with_default_timeout();
    assert_eq!(o.health_timeout, Duration::from_millis(5));
}
