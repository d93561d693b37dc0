//! The webhook verifier: a three-stage check over a payment-provider
//! callback, short-circuiting at the first failure.
//!
//! 1. the caller's source address must be on a fixed allow-list;
//! 2. the signature header must be present and decodable as text;
//! 3. the body must parse as JSON, and the header must equal the lowercase
//!    hex HMAC-SHA-512, keyed by the shared secret, of the canonical
//!    serialization of the body.
//!
//! The outcome for every input is pinned by [`webhook_spec`].

use vstd::prelude::*;

use hmac::{Hmac, KeyInit, Mac};
use sha2::Sha512;

use crate::bytes_util::ct_bytes_eq;
use crate::encode::{ser, serialize_json, hex_digit};
use crate::json::{JsonValue, JsonModel, model, canon, sort_json};

verus! {

/// The transport-layer source address of a call, as the server saw it.
#[derive(Clone, Copy, PartialEq, Eq, Structural, Debug)]
pub enum SourceAddr {
    V4 { a: u8, b: u8, c: u8, d: u8 },
    Other,
}

/// The fixed allow-list of callback sources: the four addresses the payment
/// provider sends from. Anything else, any non-IPv4 source included, is
/// rejected.
pub open spec fn spec_source_allowed(s: SourceAddr) -> bool {
    ||| s == (SourceAddr::V4 { a: 51, b: 89, c: 194, d: 21 })
    ||| s == (SourceAddr::V4 { a: 51, b: 75, c: 77, d: 69 })
    ||| s == (SourceAddr::V4 { a: 138, b: 201, c: 172, d: 58 })
    ||| s == (SourceAddr::V4 { a: 65, b: 21, c: 158, d: 36 })
}

/// Decides membership in the allow-list.
pub fn source_allowed(s: &SourceAddr) -> (r: bool)
    ensures
        r == spec_source_allowed(*s),
{
    match s {
        SourceAddr::V4 { a, b, c, d } => {
            (*a == 51 && *b == 89 && *c == 194 && *d == 21) || (*a == 51 && *b == 75 && *c == 77
                && *d == 69) || (*a == 138 && *b == 201 && *c == 172 && *d == 58) || (*a == 65 && *b
                == 21 && *c == 158 && *d == 36)
        },
        SourceAddr::Other => false,
    }
}

/// The signature header of a webhook request: absent, present but not
/// decodable as visible text, or its text as bytes.
#[derive(Debug, PartialEq, Eq)]
pub enum SignatureHeader {
    Absent,
    Undecodable,
    Text(Vec<u8>),
}

/// What the verifier answers for a webhook call.
#[derive(Clone, Copy, PartialEq, Eq, Structural, Debug)]
pub enum WebhookOutcome {
    /// The source address is not on the allow-list.
    Forbidden,
    /// The signature header is absent.
    SignatureMissing,
    /// The signature header is not decodable as text.
    SignatureFormatInvalid,
    /// The body is not valid JSON.
    JsonParseError,
    /// The signature does not match the body.
    InvalidSignature,
    /// The signature matches the body.
    Accepted,
}

impl WebhookOutcome {
    /// The HTTP status each outcome is reported with.
    pub open spec fn spec_status_code(self) -> u16 {
        match self {
            WebhookOutcome::Forbidden => 403,
            WebhookOutcome::SignatureMissing => 400,
            WebhookOutcome::SignatureFormatInvalid => 400,
            WebhookOutcome::JsonParseError => 500,
            WebhookOutcome::InvalidSignature => 400,
            WebhookOutcome::Accepted => 200,
        }
    }

    /// The HTTP status code: forbidden for a bad source, a client error for a
    /// missing, malformed or mismatching signature, a server error for an
    /// unparseable body, success for a verified signature.
    pub fn status_code(&self) -> (s: u16)
        ensures
            s == self.spec_status_code(),
    {
        match self {
            WebhookOutcome::Forbidden => 403,
            WebhookOutcome::SignatureMissing => 400,
            WebhookOutcome::SignatureFormatInvalid => 400,
            WebhookOutcome::JsonParseError => 500,
            WebhookOutcome::InvalidSignature => 400,
            WebhookOutcome::Accepted => 200,
        }
    }

    /// The short text body each outcome is reported with.
    pub open spec fn spec_message(self) -> Seq<char> {
        match self {
            WebhookOutcome::Forbidden => "Forbidden"@,
            WebhookOutcome::SignatureMissing => "Signature missing"@,
            WebhookOutcome::SignatureFormatInvalid => "Invalid signature format"@,
            WebhookOutcome::JsonParseError => "JSON parsing error"@,
            WebhookOutcome::InvalidSignature => "Invalid signature"@,
            WebhookOutcome::Accepted => "OK"@,
        }
    }

    /// The short response text for this outcome.
    pub fn message(&self) -> (m: &'static str)
        ensures
            m@ == self.spec_message(),
    {
        match self {
            WebhookOutcome::Forbidden => "Forbidden",
            WebhookOutcome::SignatureMissing => "Signature missing",
            WebhookOutcome::SignatureFormatInvalid => "Invalid signature format",
            WebhookOutcome::JsonParseError => "JSON parsing error",
            WebhookOutcome::InvalidSignature => "Invalid signature",
            WebhookOutcome::Accepted => "OK",
        }
    }
}

/// The HMAC-SHA-512 digest of `msg` under `key`: a pure function of the two,
/// left unspecified here and computed by the hmac and sha2 crates.
pub uninterp spec fn hmac_sha512_of(key: Seq<u8>, msg: Seq<u8>) -> Seq<u8>;

/// Relies on hmac's `Hmac<Sha512>` (HMAC, RFC 2104, over SHA-512): the digest
/// is a function of key and message alone and is 64 bytes long; keys of any
/// length are accepted.
#[verifier::external_body]
fn hmac_sha512(key: &Vec<u8>, msg: &Vec<u8>) -> (r: Vec<u8>)
    ensures
        r@ == hmac_sha512_of(key@, msg@),
        r@.len() == 64,
{
    let mut mac = <Hmac<Sha512> as KeyInit>::new_from_slice(key.as_slice()).expect(
        "HMAC accepts keys of any length",
    );
    mac.update(msg.as_slice());
    mac.finalize().into_bytes().to_vec()
}

/// The lowercase hex encoding of a byte string: two digits per byte, high
/// nibble first.
pub open spec fn hex_of(b: Seq<u8>) -> Seq<u8>
    decreases b.len(),
{
    if b.len() == 0 {
        Seq::empty()
    } else {
        seq![hex_digit(b[0] / 16), hex_digit(b[0] % 16)] + hex_of(b.drop_first())
    }
}

/// Relies on hex::encode: the lowercase hex digits of the input, two per
/// byte, high nibble first.
#[verifier::external_body]
fn hex_encode(b: &Vec<u8>) -> (r: Vec<u8>)
    ensures
        r@ == hex_of(b@),
{
    hex::encode(b.as_slice()).into_bytes()
}

/// Whether a byte string parses as JSON, and the value it parses to: a
/// function of the bytes alone, computed by serde_json.
pub uninterp spec fn parsed_json(bytes: Seq<u8>) -> Option<JsonModel>;

/// The models of an optional parse result, for stating what a parser call
/// returned.
pub open spec fn opt_model(r: Option<JsonValue>) -> Option<JsonModel> {
    match r {
        Option::Some(v) => Option::Some(model(v)),
        Option::None => Option::None,
    }
}

/// serde_json's JSON value type, carried opaquely between the parser call
/// and its conversion to [`JsonValue`].
#[verifier::external_type_specification]
#[verifier::external_body]
pub struct ExValue(serde_json::Value);

/// Relies on serde_json::Value's serde::Deserialize: each JSON scalar,
/// array and object maps to the matching variant, object keys deduplicated,
/// and a number prints back through its Display.
#[verifier::external_body]
fn from_serde(v: &serde_json::Value) -> JsonValue {
    match v {
        serde_json::Value::Null => JsonValue::Null,
        serde_json::Value::Bool(b) => JsonValue::Bool(*b),
        serde_json::Value::Number(n) => JsonValue::Number(n.to_string().into_bytes()),
        serde_json::Value::String(s) => JsonValue::Text(s.as_bytes().to_vec()),
        serde_json::Value::Array(a) => JsonValue::Array(a.iter().map(from_serde).collect()),
        serde_json::Value::Object(m) => JsonValue::Object(
            m.iter().map(|(k, val)| (k.as_bytes().to_vec(), from_serde(val))).collect(),
        ),
    }
}

/// Relies on serde_json::from_slice: whether the bytes are a valid JSON text
/// and what value they denote depend on the bytes alone.
#[verifier::external_body]
fn parse_json(bytes: &Vec<u8>) -> (r: Option<JsonValue>)
    ensures
        opt_model(r) == parsed_json(bytes@),
{
    match serde_json::from_slice::<serde_json::Value>(bytes.as_slice()) {
        Ok(v) => Some(from_serde(&v)),
        Err(_) => None,
    }
}

/// The signature an authorized caller must present for a body that parses to
/// `m` under the shared secret `key`: the lowercase hex HMAC-SHA-512 of the
/// canonical compact serialization.
pub open spec fn expected_signature(m: JsonModel, key: Seq<u8>) -> Seq<u8> {
    hex_of(hmac_sha512_of(key, ser(canon(m))))
}

/// The verifier's answer for every input, stage by stage: source first, then
/// the header, then the body, then the signature comparison.
pub open spec fn webhook_spec(
    addr: SourceAddr,
    header: SignatureHeader,
    body: Seq<u8>,
    secret: Seq<u8>,
) -> WebhookOutcome {
    if !spec_source_allowed(addr) {
        WebhookOutcome::Forbidden
    } else {
        match header {
            SignatureHeader::Absent => WebhookOutcome::SignatureMissing,
            SignatureHeader::Undecodable => WebhookOutcome::SignatureFormatInvalid,
            SignatureHeader::Text(t) => match parsed_json(body) {
                Option::None => WebhookOutcome::JsonParseError,
                Option::Some(m) => if t@ == expected_signature(m, secret) {
                    WebhookOutcome::Accepted
                } else {
                    WebhookOutcome::InvalidSignature
                },
            },
        }
    }
}

/// Verifies one webhook call. An unauthorized source is turned away before
/// the body is parsed; an authorized caller is accepted exactly when the
/// signature header equals the expected signature of the body.
pub fn nowpayments_webhook(
    remote_addr: &SourceAddr,
    sig_header: &SignatureHeader,
    body: &Vec<u8>,
    secret: &Vec<u8>,
) -> (r: WebhookOutcome)
    ensures
        r == webhook_spec(*remote_addr, *sig_header, body@, secret@),
{
    if !source_allowed(remote_addr) {
        return WebhookOutcome::Forbidden;
    }
    let sig: &Vec<u8> = match sig_header {
        SignatureHeader::Absent => {
            return WebhookOutcome::SignatureMissing;
        },
        SignatureHeader::Undecodable => {
            return WebhookOutcome::SignatureFormatInvalid;
        },
        SignatureHeader::Text(t) => t,
    };
    let payload = match parse_json(body) {
        Option::None => {
            return WebhookOutcome::JsonParseError;
        },
        Option::Some(v) => v,
    };
    let sorted = sort_json(&payload);
    let bytes = serialize_json(&sorted);
    let digest = hmac_sha512(secret, &bytes);
    let hexed = hex_encode(&digest);
    // a constant-time comparison: the accept/reject outcome is the plain
    // byte equality, without a timing side channel on the position of the
    // first difference
    if ct_bytes_eq(sig, &hexed) {
        WebhookOutcome::Accepted
    } else {
        WebhookOutcome::InvalidSignature
    }
}

} // verus!
