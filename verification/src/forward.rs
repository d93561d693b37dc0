//! The forwarder: turns an inbound request into an outbound request against
//! the origin selected by the path's environment tag, and turns the origin's
//! answer into the response sent back.
//!
//! An unknown tag is rejected as a client error before any origin is
//! involved. The outbound request carries every inbound header but `Host`,
//! with `Host` set to the target authority. The forwarded response carries
//! the origin's status and headers verbatim, except that the hop-by-hop
//! headers `Transfer-Encoding` and `Connection` are stripped and
//! `Content-Length` is recomputed from the actual forwarded body.

use vstd::prelude::*;

use crate::bytes_util::{bytes_eq, copy_bytes, push_bytes, dec_rep, u64_to_decimal};

verus! {

/// The byte cap on an inbound body; a larger body is rejected, not
/// truncated.
pub const MAX_BODY_SIZE: usize = 8388608;

/// Whether an inbound body of `len` bytes is within the cap.
pub fn body_within_cap(len: usize) -> (r: bool)
    ensures
        r == (len <= MAX_BODY_SIZE),
{
    len <= MAX_BODY_SIZE
}

/// The environment tag a request path starts with.
#[derive(Clone, Copy, PartialEq, Eq, Structural, Debug)]
pub enum EnvironmentTag {
    Test,
    Prod,
}

/// The bytes of "test".
pub open spec fn test_tag() -> Seq<u8> {
    seq![0x74u8, 0x65, 0x73, 0x74]
}

/// The bytes of "prod".
pub open spec fn prod_tag() -> Seq<u8> {
    seq![0x70u8, 0x72, 0x6f, 0x64]
}

/// The tag a path segment denotes: exactly "test" or "prod", nothing else.
pub open spec fn tag_of(s: Seq<u8>) -> Option<EnvironmentTag> {
    if s == test_tag() {
        Option::Some(EnvironmentTag::Test)
    } else if s == prod_tag() {
        Option::Some(EnvironmentTag::Prod)
    } else {
        Option::None
    }
}

/// Parses the environment segment of a path.
pub fn parse_env_tag(env: &Vec<u8>) -> (r: Option<EnvironmentTag>)
    ensures
        r == tag_of(env@),
{
    if env.len() == 4 && env[0] == 0x74 && env[1] == 0x65 && env[2] == 0x73 && env[3] == 0x74 {
        proof {
            assert(env@ =~= test_tag());
        }
        Some(EnvironmentTag::Test)
    } else if env.len() == 4 && env[0] == 0x70 && env[1] == 0x72 && env[2] == 0x6f && env[3]
        == 0x64 {
        proof {
            assert(env@ =~= prod_tag());
        }
        Some(EnvironmentTag::Prod)
    } else {
        proof {
            if env@ == test_tag() {
                assert(env@.len() == 4);
                assert(env@[0] == 0x74 && env@[1] == 0x65 && env@[2] == 0x73 && env@[3] == 0x74);
            }
            if env@ == prod_tag() {
                assert(env@.len() == 4);
                assert(env@[0] == 0x70 && env@[1] == 0x72 && env@[2] == 0x6f && env@[3] == 0x64);
            }
        }
        None
    }
}

/// The two fixed origins, supplied by configuration: a base URL and its
/// authority (the `Host` header value) for each tag.
#[derive(Debug, PartialEq, Eq)]
pub struct OriginConfig {
    pub test_base: Vec<u8>,
    pub test_host: Vec<u8>,
    pub prod_base: Vec<u8>,
    pub prod_host: Vec<u8>,
}

impl OriginConfig {
    /// The base URL the tag maps to.
    pub open spec fn spec_base(self, tag: EnvironmentTag) -> Seq<u8> {
        match tag {
            EnvironmentTag::Test => self.test_base@,
            EnvironmentTag::Prod => self.prod_base@,
        }
    }

    /// The authority the tag maps to.
    pub open spec fn spec_host(self, tag: EnvironmentTag) -> Seq<u8> {
        match tag {
            EnvironmentTag::Test => self.test_host@,
            EnvironmentTag::Prod => self.prod_host@,
        }
    }
}

/// The target URI of a forwarded call: the origin base, a slash, the
/// remaining path, and the query string, if any, behind a question mark.
pub open spec fn spec_target_uri(base: Seq<u8>, wildcard_path: Seq<u8>, query: Option<Seq<u8>>) -> Seq<u8> {
    base + seq![0x2fu8] + wildcard_path + match query {
        Option::Some(q) => seq![0x3fu8] + q,
        Option::None => Seq::empty(),
    }
}

/// Builds the target URI.
pub fn build_target_uri(base: &Vec<u8>, wildcard_path: &Vec<u8>, query: &Option<Vec<u8>>) -> (uri:
    Vec<u8>)
    ensures
        uri@ == spec_target_uri(
            base@,
            wildcard_path@,
            match query {
                Option::Some(q) => Option::Some(q@),
                Option::None => Option::None,
            },
        ),
{
    let mut uri = copy_bytes(base);
    uri.push(0x2f);
    push_bytes(&mut uri, wildcard_path);
    match query {
        Option::Some(q) => {
            uri.push(0x3f);
            push_bytes(&mut uri, q);
            proof {
                assert(uri@ =~= spec_target_uri(base@, wildcard_path@, Option::Some(q@)));
            }
        },
        Option::None => {
            proof {
                assert(uri@ =~= spec_target_uri(base@, wildcard_path@, Option::<Seq<u8>>::None));
            }
        },
    }
    uri
}

/// The models of a header list: each name and value abstracted to its bytes.
pub open spec fn hdr_model(s: Seq<(Vec<u8>, Vec<u8>)>) -> Seq<(Seq<u8>, Seq<u8>)>
    decreases s,
{
    if s.len() == 0 {
        Seq::empty()
    } else {
        seq![(s[0].0@, s[0].1@)] + hdr_model(s.drop_first())
    }
}

/// `hdr_model` is the pointwise image of the views.
pub proof fn lemma_hdr_model_index(s: Seq<(Vec<u8>, Vec<u8>)>)
    ensures
        hdr_model(s).len() == s.len(),
        forall|i: int| 0 <= i < s.len() ==> #[trigger] hdr_model(s)[i] == (s[i].0@, s[i].1@),
    decreases s,
{
    if s.len() > 0 {
        lemma_hdr_model_index(s.drop_first());
        assert forall|i: int| 0 <= i < s.len() implies #[trigger] hdr_model(s)[i] == (
            s[i].0@,
            s[i].1@,
        ) by {
            if i > 0 {
                assert(hdr_model(s)[i] == hdr_model(s.drop_first())[i - 1]);
                assert(s.drop_first()[i - 1] == s[i]);
            }
        }
    }
}

/// The header list without every entry named `name`, order otherwise kept.
pub open spec fn drop_hdr(s: Seq<(Seq<u8>, Seq<u8>)>, name: Seq<u8>) -> Seq<(Seq<u8>, Seq<u8>)>
    decreases s.len(),
{
    if s.len() == 0 {
        s
    } else if s[0].0 == name {
        drop_hdr(s.drop_first(), name)
    } else {
        seq![s[0]] + drop_hdr(s.drop_first(), name)
    }
}

proof fn lemma_drop_hdr_push(s: Seq<(Seq<u8>, Seq<u8>)>, e: (Seq<u8>, Seq<u8>), name: Seq<u8>)
    ensures
        drop_hdr(s.push(e), name) == if e.0 == name {
            drop_hdr(s, name)
        } else {
            drop_hdr(s, name).push(e)
        },
    decreases s.len(),
{
    if s.len() == 0 {
        assert(s =~= Seq::<(Seq<u8>, Seq<u8>)>::empty());
        assert(s.push(e)[0] == e);
        assert(s.push(e).drop_first() =~= s);
        assert(drop_hdr(s, name) == s);
        if e.0 == name {
            assert(drop_hdr(s.push(e), name) == drop_hdr(s, name));
        } else {
            assert(drop_hdr(s.push(e), name) == seq![e] + drop_hdr(s, name));
            assert(seq![e] + s =~= s.push(e));
            assert(drop_hdr(s, name).push(e) =~= seq![e] + s);
        }
    } else {
        assert(s.push(e)[0] == s[0]);
        assert(s.push(e).drop_first() =~= s.drop_first().push(e));
        lemma_drop_hdr_push(s.drop_first(), e, name);
        if s[0].0 == name {
        } else {
            if e.0 == name {
            } else {
                assert(seq![s[0]] + drop_hdr(s.drop_first(), name).push(e) =~= (seq![s[0]]
                    + drop_hdr(s.drop_first(), name)).push(e));
            }
        }
    }
}

/// No entry of `drop_hdr(s, name)` is named `name`, and every entry is an
/// entry of `s`.
pub proof fn lemma_drop_hdr_absent(s: Seq<(Seq<u8>, Seq<u8>)>, name: Seq<u8>)
    ensures
        forall|i: int| 0 <= i < drop_hdr(s, name).len() ==> (#[trigger] drop_hdr(s, name)[i]).0
            != name,
        forall|i: int|
            0 <= i < drop_hdr(s, name).len() ==> exists|k: int|
                0 <= k < s.len() && #[trigger] drop_hdr(s, name)[i] == s[k],
    decreases s.len(),
{
    if s.len() > 0 {
        lemma_drop_hdr_absent(s.drop_first(), name);
        let t = drop_hdr(s.drop_first(), name);
        if s[0].0 == name {
            assert forall|i: int| 0 <= i < drop_hdr(s, name).len() implies exists|k: int|
                0 <= k < s.len() && #[trigger] drop_hdr(s, name)[i] == s[k] by {
                let k1 = choose|k1: int| 0 <= k1 < s.drop_first().len() && drop_hdr(s, name)[i] == s.drop_first()[k1];
                assert(s.drop_first()[k1] == s[k1 + 1]);
            }
        } else {
            let r = seq![s[0]] + t;
            assert forall|i: int| 0 <= i < r.len() implies (#[trigger] r[i]).0 != name by {
                if i > 0 {
                    assert(r[i] == t[i - 1]);
                }
            }
            assert forall|i: int| 0 <= i < r.len() implies exists|k: int|
                0 <= k < s.len() && #[trigger] r[i] == s[k] by {
                if i == 0 {
                    assert(r[0] == s[0]);
                } else {
                    assert(r[i] == t[i - 1]);
                    let k1 = choose|k1: int| 0 <= k1 < s.drop_first().len() && t[i - 1] == s.drop_first()[k1];
                    assert(s.drop_first()[k1] == s[k1 + 1]);
                }
            }
        }
    }
}

/// The bytes of "host".
pub open spec fn host_name() -> Seq<u8> {
    seq![0x68u8, 0x6f, 0x73, 0x74]
}

/// The bytes of "transfer-encoding".
pub open spec fn transfer_encoding_name() -> Seq<u8> {
    seq![0x74u8, 0x72, 0x61, 0x6e, 0x73, 0x66, 0x65, 0x72, 0x2d, 0x65, 0x6e, 0x63, 0x6f, 0x64, 0x69, 0x6e, 0x67]
}

/// The bytes of "connection".
pub open spec fn connection_name() -> Seq<u8> {
    seq![0x63u8, 0x6f, 0x6e, 0x6e, 0x65, 0x63, 0x74, 0x69, 0x6f, 0x6e]
}

/// The bytes of "content-length".
pub open spec fn content_length_name() -> Seq<u8> {
    seq![0x63u8, 0x6f, 0x6e, 0x74, 0x65, 0x6e, 0x74, 0x2d, 0x6c, 0x65, 0x6e, 0x67, 0x74, 0x68]
}

fn host_name_vec() -> (r: Vec<u8>)
    ensures
        r@ == host_name(),
{
    let mut v: Vec<u8> = Vec::new();
    v.push(0x68);
    v.push(0x6f);
    v.push(0x73);
    v.push(0x74);
    proof {
        assert(v@ =~= host_name());
    }
    v
}

fn transfer_encoding_name_vec() -> (r: Vec<u8>)
    ensures
        r@ == transfer_encoding_name(),
{
    let mut v: Vec<u8> = Vec::new();
    v.push(0x74);
    v.push(0x72);
    v.push(0x61);
    v.push(0x6e);
    v.push(0x73);
    v.push(0x66);
    v.push(0x65);
    v.push(0x72);
    v.push(0x2d);
    v.push(0x65);
    v.push(0x6e);
    v.push(0x63);
    v.push(0x6f);
    v.push(0x64);
    v.push(0x69);
    v.push(0x6e);
    v.push(0x67);
    proof {
        assert(v@ =~= transfer_encoding_name());
    }
    v
}

fn connection_name_vec() -> (r: Vec<u8>)
    ensures
        r@ == connection_name(),
{
    let mut v: Vec<u8> = Vec::new();
    v.push(0x63);
    v.push(0x6f);
    v.push(0x6e);
    v.push(0x6e);
    v.push(0x65);
    v.push(0x63);
    v.push(0x74);
    v.push(0x69);
    v.push(0x6f);
    v.push(0x6e);
    proof {
        assert(v@ =~= connection_name());
    }
    v
}

fn content_length_name_vec() -> (r: Vec<u8>)
    ensures
        r@ == content_length_name(),
{
    let mut v: Vec<u8> = Vec::new();
    v.push(0x63);
    v.push(0x6f);
    v.push(0x6e);
    v.push(0x74);
    v.push(0x65);
    v.push(0x6e);
    v.push(0x74);
    v.push(0x2d);
    v.push(0x6c);
    v.push(0x65);
    v.push(0x6e);
    v.push(0x67);
    v.push(0x74);
    v.push(0x68);
    proof {
        assert(v@ =~= content_length_name());
    }
    v
}

/// Removes every header named `name` (the transport hands names in
/// lowercase), keeping the rest in order.
#[verifier::loop_isolation(false)]
fn strip_header(headers: &Vec<(Vec<u8>, Vec<u8>)>, name: &Vec<u8>) -> (r: Vec<(Vec<u8>, Vec<u8>)>)
    ensures
        hdr_model(r@) == drop_hdr(hdr_model(headers@), name@),
{
    let mut out: Vec<(Vec<u8>, Vec<u8>)> = Vec::new();
    let mut i: usize = 0;
    proof {
        lemma_hdr_model_index(headers@);
    }
    while i < headers.len()
        invariant
            i <= headers@.len(),
            hdr_model(out@) == drop_hdr(hdr_model(headers@.take(i as int)), name@),
        decreases headers@.len() - i,
    {
        proof {
            assert(headers@.take(i + 1) =~= headers@.take(i as int).push(headers@[i as int]));
            assert(hdr_model(headers@.take(i + 1)) =~= hdr_model(headers@.take(i as int)).push(
                (headers@[i as int].0@, headers@[i as int].1@),
            )) by {
                lemma_hdr_model_index(headers@.take(i + 1));
                lemma_hdr_model_index(headers@.take(i as int));
            }
            lemma_drop_hdr_push(
                hdr_model(headers@.take(i as int)),
                (headers@[i as int].0@, headers@[i as int].1@),
                name@,
            );
        }
        if !bytes_eq(&headers[i].0, name) {
            let ghost pre = out@;
            let k = copy_bytes(&headers[i].0);
            let v = copy_bytes(&headers[i].1);
            out.push((k, v));
            proof {
                assert(hdr_model(out@) =~= hdr_model(pre).push(
                    (headers@[i as int].0@, headers@[i as int].1@),
                )) by {
                    lemma_hdr_model_index(out@);
                    lemma_hdr_model_index(pre);
                }
            }
        }
        i = i + 1;
    }
    proof {
        assert(headers@.take(headers@.len() as int) =~= headers@);
    }
    out
}

/// The inbound headers prepared for the outbound call: every entry kept in
/// order except `Host`, and `Host` appended with the target authority.
pub open spec fn spec_forward_headers(h: Seq<(Seq<u8>, Seq<u8>)>, authority: Seq<u8>) -> Seq<
    (Seq<u8>, Seq<u8>),
> {
    drop_hdr(h, host_name()).push((host_name(), authority))
}

/// Rewrites the inbound headers for the outbound call.
pub fn prepare_forward_headers(headers: &Vec<(Vec<u8>, Vec<u8>)>, authority: &Vec<u8>) -> (r: Vec<
    (Vec<u8>, Vec<u8>),
>)
    ensures
        hdr_model(r@) == spec_forward_headers(hdr_model(headers@), authority@),
{
    let name = host_name_vec();
    let mut out = strip_header(headers, &name);
    let ghost stripped = out@;
    let value = copy_bytes(authority);
    out.push((name, value));
    proof {
        assert(hdr_model(out@) =~= hdr_model(stripped).push((host_name(), authority@))) by {
            lemma_hdr_model_index(out@);
            lemma_hdr_model_index(stripped);
        }
    }
    out
}

/// A response ready to send back: status, headers, body.
#[derive(Debug, PartialEq, Eq)]
pub struct ProxyResponse {
    pub status: u16,
    pub headers: Vec<(Vec<u8>, Vec<u8>)>,
    pub body: Vec<u8>,
}

/// The headers of a forwarded response: the origin's headers with every
/// `Transfer-Encoding`, `Connection` and `Content-Length` entry removed, and
/// `Content-Length` appended with the decimal length of the forwarded body.
pub open spec fn spec_response_headers(h: Seq<(Seq<u8>, Seq<u8>)>, body_len: nat) -> Seq<
    (Seq<u8>, Seq<u8>),
> {
    drop_hdr(drop_hdr(drop_hdr(h, transfer_encoding_name()), connection_name()), content_length_name()).push(
        (content_length_name(), dec_rep(body_len)),
    )
}

/// Builds the response forwarded to the caller: the origin's status and body
/// verbatim, hop-by-hop headers stripped, `Content-Length` recomputed from
/// the actual body.
pub fn finish_response(status: u16, headers: &Vec<(Vec<u8>, Vec<u8>)>, body: Vec<u8>) -> (r:
    ProxyResponse)
    ensures
        r.status == status,
        r.body@ == body@,
        hdr_model(r.headers@) == spec_response_headers(hdr_model(headers@), body@.len()),
{
    let te = transfer_encoding_name_vec();
    let conn = connection_name_vec();
    let cl = content_length_name_vec();
    let h1 = strip_header(headers, &te);
    let h2 = strip_header(&h1, &conn);
    let mut h3 = strip_header(&h2, &cl);
    let ghost stripped = h3@;
    let len_bytes = u64_to_decimal(body.len() as u64);
    h3.push((cl, len_bytes));
    proof {
        assert(hdr_model(h3@) =~= hdr_model(stripped).push(
            (content_length_name(), dec_rep(body@.len())),
        )) by {
            lemma_hdr_model_index(h3@);
            lemma_hdr_model_index(stripped);
        }
    }
    ProxyResponse { status, headers: h3, body }
}

/// In a forwarded response's headers no `Transfer-Encoding` or `Connection`
/// entry remains, every other entry comes from the origin's headers, and the
/// last entry is a `Content-Length` holding the decimal length of the body
/// actually forwarded.
pub proof fn lemma_forwarded_response_headers(h: Seq<(Seq<u8>, Seq<u8>)>, body_len: nat)
    ensures
        forall|i: int|
            0 <= i < spec_response_headers(h, body_len).len() ==> (#[trigger] spec_response_headers(
                h,
                body_len,
            )[i]).0 != transfer_encoding_name(),
        forall|i: int|
            0 <= i < spec_response_headers(h, body_len).len() ==> (#[trigger] spec_response_headers(
                h,
                body_len,
            )[i]).0 != connection_name(),
        spec_response_headers(h, body_len).last() == (content_length_name(), dec_rep(body_len)),
{
    let d1 = drop_hdr(h, transfer_encoding_name());
    let d2 = drop_hdr(d1, connection_name());
    let d3 = drop_hdr(d2, content_length_name());
    lemma_drop_hdr_absent(h, transfer_encoding_name());
    lemma_drop_hdr_absent(d1, connection_name());
    lemma_drop_hdr_absent(d2, content_length_name());
    let r = spec_response_headers(h, body_len);
    assert(content_length_name() != transfer_encoding_name()) by {
        assert(content_length_name().len() != transfer_encoding_name().len());
    }
    assert(content_length_name() != connection_name()) by {
        assert(content_length_name().len() != connection_name().len());
    }
    assert forall|i: int| 0 <= i < r.len() implies (#[trigger] r[i]).0 != transfer_encoding_name()
        && r[i].0 != connection_name() by {
        if i < r.len() - 1 {
            assert(r[i] == d3[i]);
            let k2 = choose|k2: int| 0 <= k2 < d2.len() && d3[i] == d2[k2];
            let k1 = choose|k1: int| 0 <= k1 < d1.len() && d2[k2] == d1[k1];
            assert(d1[k1].0 != transfer_encoding_name());
            assert(d2[k2].0 != connection_name());
        }
    }
}

/// Why a request cannot be forwarded.
#[derive(Clone, Copy, PartialEq, Eq, Structural, Debug)]
pub enum ForwardError {
    /// The path's environment segment names no known environment.
    UnknownEnvironment,
}

impl ForwardError {
    /// The client-error status the rejection is reported with.
    pub fn status_code(&self) -> (s: u16)
        ensures
            s == 400,
    {
        400
    }
}

/// An outbound request, ready for the transport: the target URI and the
/// rewritten headers. Method and body pass through unchanged.
#[derive(Debug, PartialEq, Eq)]
pub struct OutboundRequest {
    pub uri: Vec<u8>,
    pub headers: Vec<(Vec<u8>, Vec<u8>)>,
}

/// Plans one forwarded call. An unknown environment tag is rejected as a
/// client error, and no origin is contacted for it; a known tag yields the
/// target URI against that tag's origin and the rewritten headers.
pub fn plan_forward(
    cfg: &OriginConfig,
    env: &Vec<u8>,
    wildcard_path: &Vec<u8>,
    query: &Option<Vec<u8>>,
    headers: &Vec<(Vec<u8>, Vec<u8>)>,
) -> (r: Result<OutboundRequest, ForwardError>)
    ensures
        tag_of(env@) is None <==> r is Err,
        r is Err ==> r == Result::<OutboundRequest, ForwardError>::Err(
            ForwardError::UnknownEnvironment,
        ),
        r matches Ok(out) ==> {
            let tag = tag_of(env@)->Some_0;
            &&& out.uri@ == spec_target_uri(
                cfg.spec_base(tag),
                wildcard_path@,
                match query {
                    Option::Some(q) => Option::Some(q@),
                    Option::None => Option::None,
                },
            )
            &&& hdr_model(out.headers@) == spec_forward_headers(
                hdr_model(headers@),
                cfg.spec_host(tag),
            )
        },
{
    let tag = match parse_env_tag(env) {
        Option::Some(t) => t,
        Option::None => {
            return Err(ForwardError::UnknownEnvironment);
        },
    };
    let (base, host) = match tag {
        EnvironmentTag::Test => (&cfg.test_base, &cfg.test_host),
        EnvironmentTag::Prod => (&cfg.prod_base, &cfg.prod_host),
    };
    let uri = build_target_uri(base, wildcard_path, query);
    let out_headers = prepare_forward_headers(headers, host);
    Ok(OutboundRequest { uri, headers: out_headers })
}

} // verus!
