use hmac::{Hmac, KeyInit, Mac};
use sha2::Sha512;

use rev_proxy::webhook::{nowpayments_webhook, SignatureHeader, SourceAddr, WebhookOutcome};

fn allowed_addr() -> SourceAddr {
    SourceAddr::V4 { a: 51, b: 89, c: 194, d: 21 }
}

fn signature_for(secret: &[u8], canonical: &[u8]) -> Vec<u8> {
    let mut mac = <Hmac<Sha512> as KeyInit>::new_from_slice(secret).unwrap();
    mac.update(canonical);
    hex::encode(mac.finalize().into_bytes()).into_bytes()
}

#[test]
fn accepts_the_signature_of_the_canonical_body() {
    let secret = b"S".to_vec();
    let body = b"{\"c\":3,\"a\":1,\"b\":2}".to_vec();
    let header = SignatureHeader::Text(signature_for(&secret, b"{\"a\":1,\"b\":2,\"c\":3}"));
    let outcome = nowpayments_webhook(&allowed_addr(), &header, &body, &secret);
    assert_eq!(outcome, WebhookOutcome::Accepted);
    assert_eq!(outcome.status_code(), 200);
    assert_eq!(outcome.message(), "OK");
}

#[test]
fn accepts_a_known_fixed_signature() {
    // independently computed: HMAC-SHA-512 of {"a":1,"b":2,"c":3} under "S"
    let secret = b"S".to_vec();
    let body = b"{\"c\":3,\"a\":1,\"b\":2}".to_vec();
    let header = SignatureHeader::Text(
        b"78a682b8d7da8f8d62df36806629f6a0a79b547551a5b789be32468adee203b8\
47d094f37f089e8cb7e83088edb6201acef640a7f7a701be47110402086ee354"
            .to_vec(),
    );
    let outcome = nowpayments_webhook(&allowed_addr(), &header, &body, &secret);
    assert_eq!(outcome, WebhookOutcome::Accepted);
}

#[test]
fn rejects_any_other_signature() {
    let secret = b"S".to_vec();
    let body = b"{\"c\":3,\"a\":1,\"b\":2}".to_vec();
    // a signature over the body as sent, not over its canonical form, must
    // not be accepted
    let header = SignatureHeader::Text(signature_for(&secret, &body));
    let outcome = nowpayments_webhook(&allowed_addr(), &header, &body, &secret);
    assert_eq!(outcome, WebhookOutcome::InvalidSignature);
    assert_eq!(outcome.status_code(), 400);
    assert_eq!(outcome.message(), "Invalid signature");
}

#[test]
fn rejects_a_signature_under_another_secret() {
    let secret = b"S".to_vec();
    let body = b"{\"c\":3,\"a\":1,\"b\":2}".to_vec();
    let header = SignatureHeader::Text(signature_for(b"T", b"{\"a\":1,\"b\":2,\"c\":3}"));
    let outcome = nowpayments_webhook(&allowed_addr(), &header, &body, &secret);
    assert_eq!(outcome, WebhookOutcome::InvalidSignature);
}

#[test]
fn forbids_an_unlisted_source_before_parsing() {
    let secret = b"S".to_vec();
    // not even valid JSON: an unauthorized source is turned away without
    // the body being looked at
    let body = b"not json at all".to_vec();
    let header = SignatureHeader::Text(b"deadbeef".to_vec());
    let outsider = SourceAddr::V4 { a: 10, b: 0, c: 0, d: 1 };
    let outcome = nowpayments_webhook(&outsider, &header, &body, &secret);
    assert_eq!(outcome, WebhookOutcome::Forbidden);
    assert_eq!(outcome.status_code(), 403);
    assert_eq!(outcome.message(), "Forbidden");

    let not_v4 = SourceAddr::Other;
    let outcome = nowpayments_webhook(&not_v4, &header, &body, &secret);
    assert_eq!(outcome, WebhookOutcome::Forbidden);
}

#[test]
fn each_listed_source_is_admitted() {
    let secret = b"S".to_vec();
    let body = b"{}".to_vec();
    let header = SignatureHeader::Text(signature_for(&secret, b"{}"));
    for addr in [
        SourceAddr::V4 { a: 51, b: 89, c: 194, d: 21 },
        SourceAddr::V4 { a: 51, b: 75, c: 77, d: 69 },
        SourceAddr::V4 { a: 138, b: 201, c: 172, d: 58 },
        SourceAddr::V4 { a: 65, b: 21, c: 158, d: 36 },
    ] {
        let outcome = nowpayments_webhook(&addr, &header, &body, &secret);
        assert_eq!(outcome, WebhookOutcome::Accepted);
    }
}

#[test]
fn missing_signature_header_is_a_client_error() {
    let secret = b"S".to_vec();
    let body = b"{}".to_vec();
    let outcome = nowpayments_webhook(&allowed_addr(), &SignatureHeader::Absent, &body, &secret);
    assert_eq!(outcome, WebhookOutcome::SignatureMissing);
    assert_eq!(outcome.status_code(), 400);
    assert_eq!(outcome.message(), "Signature missing");
}

#[test]
fn undecodable_signature_header_is_a_client_error() {
    let secret = b"S".to_vec();
    let body = b"{}".to_vec();
    let outcome =
        nowpayments_webhook(&allowed_addr(), &SignatureHeader::Undecodable, &body, &secret);
    assert_eq!(outcome, WebhookOutcome::SignatureFormatInvalid);
    assert_eq!(outcome.status_code(), 400);
    assert_eq!(outcome.message(), "Invalid signature format");
}

#[test]
fn unparseable_body_is_a_server_error() {
    let secret = b"S".to_vec();
    let body = b"{not json".to_vec();
    let header = SignatureHeader::Text(b"deadbeef".to_vec());
    let outcome = nowpayments_webhook(&allowed_addr(), &header, &body, &secret);
    assert_eq!(outcome, WebhookOutcome::JsonParseError);
    assert_eq!(outcome.status_code(), 500);
    assert_eq!(outcome.message(), "JSON parsing error");
}

#[test]
fn whitespace_and_key_order_in_the_body_do_not_matter() {
    let secret = b"shared".to_vec();
    let expected_canonical = b"{\"amount\":\"1.50\",\"id\":7}";
    let header = SignatureHeader::Text(signature_for(&secret, expected_canonical));
    let body = b" { \"id\" : 7 , \"amount\" : \"1.50\" } ".to_vec();
    let outcome = nowpayments_webhook(&allowed_addr(), &header, &body, &secret);
    assert_eq!(outcome, WebhookOutcome::Accepted);
}
