use rev_proxy::classify_transport_error;
use rev_proxy::config::EnvVarConfig;
use rev_proxy::forward::{
    body_within_cap, finish_response, parse_env_tag, plan_forward, EnvironmentTag, ForwardError,
    OriginConfig, MAX_BODY_SIZE,
};
use rev_proxy::ErrorKind;

fn config() -> OriginConfig {
    OriginConfig {
        test_base: b"http://test.services.travelomatix.com".to_vec(),
        test_host: b"test.services.travelomatix.com".to_vec(),
        prod_base: b"https://prod.services.travelomatix.com".to_vec(),
        prod_host: b"prod.services.travelomatix.com".to_vec(),
    }
}

#[test]
fn unknown_environment_is_rejected_without_a_target() {
    let cfg = config();
    let r = plan_forward(&cfg, &b"staging".to_vec(), &b"foo".to_vec(), &None, &Vec::new());
    assert_eq!(r, Err(ForwardError::UnknownEnvironment));
    assert_eq!(ForwardError::UnknownEnvironment.status_code(), 400);
}

#[test]
fn known_environments_map_to_their_origins() {
    let cfg = config();
    let r = plan_forward(
        &cfg,
        &b"test".to_vec(),
        &b"api/v1/things".to_vec(),
        &Some(b"q=1".to_vec()),
        &Vec::new(),
    )
    .unwrap();
    assert_eq!(r.uri, b"http://test.services.travelomatix.com/api/v1/things?q=1".to_vec());
    assert_eq!(r.headers, vec![(b"host".to_vec(), b"test.services.travelomatix.com".to_vec())]);

    let r = plan_forward(&cfg, &b"prod".to_vec(), &b"x".to_vec(), &None, &Vec::new()).unwrap();
    assert_eq!(r.uri, b"https://prod.services.travelomatix.com/x".to_vec());
    assert_eq!(r.headers, vec![(b"host".to_vec(), b"prod.services.travelomatix.com".to_vec())]);
}

#[test]
fn inbound_host_header_is_replaced() {
    let cfg = config();
    let headers = vec![
        (b"accept".to_vec(), b"*/*".to_vec()),
        (b"host".to_vec(), b"proxy.example".to_vec()),
        (b"x-req-id".to_vec(), b"7".to_vec()),
    ];
    let r = plan_forward(&cfg, &b"test".to_vec(), &b"p".to_vec(), &None, &headers).unwrap();
    assert_eq!(
        r.headers,
        vec![
            (b"accept".to_vec(), b"*/*".to_vec()),
            (b"x-req-id".to_vec(), b"7".to_vec()),
            (b"host".to_vec(), b"test.services.travelomatix.com".to_vec()),
        ]
    );
}

#[test]
fn parse_env_tag_accepts_exactly_the_two_tags() {
    assert_eq!(parse_env_tag(&b"test".to_vec()), Some(EnvironmentTag::Test));
    assert_eq!(parse_env_tag(&b"prod".to_vec()), Some(EnvironmentTag::Prod));
    assert_eq!(parse_env_tag(&b"staging".to_vec()), None);
    assert_eq!(parse_env_tag(&b"Test".to_vec()), None);
    assert_eq!(parse_env_tag(&b"".to_vec()), None);
}

#[test]
fn forwarded_response_strips_hop_by_hop_and_recomputes_length() {
    let headers = vec![
        (b"content-type".to_vec(), b"application/json".to_vec()),
        (b"transfer-encoding".to_vec(), b"chunked".to_vec()),
        (b"connection".to_vec(), b"keep-alive".to_vec()),
        (b"content-length".to_vec(), b"999".to_vec()),
        (b"x-served-by".to_vec(), b"origin-1".to_vec()),
    ];
    let body = b"hello body".to_vec();
    let r = finish_response(502, &headers, body);
    assert_eq!(r.status, 502);
    assert_eq!(r.body, b"hello body".to_vec());
    assert!(r.headers.iter().all(|(k, _)| k != b"transfer-encoding"));
    assert!(r.headers.iter().all(|(k, _)| k != b"connection"));
    assert_eq!(
        r.headers,
        vec![
            (b"content-type".to_vec(), b"application/json".to_vec()),
            (b"x-served-by".to_vec(), b"origin-1".to_vec()),
            (b"content-length".to_vec(), b"10".to_vec()),
        ]
    );
}

#[test]
fn classify_transport_error_prefers_timeout() {
    assert_eq!(classify_transport_error(true, false), ErrorKind::Timeout);
    assert_eq!(classify_transport_error(true, true), ErrorKind::Timeout);
    assert_eq!(classify_transport_error(false, true), ErrorKind::Connection);
    assert_eq!(classify_transport_error(false, false), ErrorKind::Other);
}

#[test]
fn body_cap_is_eight_mebibytes() {
    assert_eq!(MAX_BODY_SIZE, 8 * 1024 * 1024);
    assert!(body_within_cap(MAX_BODY_SIZE));
    assert!(!body_within_cap(MAX_BODY_SIZE + 1));
    assert!(body_within_cap(0));
}

#[test]
fn secret_comes_from_the_environment_or_the_default() {
    let c = EnvVarConfig::try_from_env(Some("real-secret".to_string()));
    assert_eq!(c.ipn_secret, "real-secret");
    let c = EnvVarConfig::try_from_env(None);
    assert_eq!(c.ipn_secret, "dummy-secret-for-now");
}
