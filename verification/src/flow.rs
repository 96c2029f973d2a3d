//! The three-legged token exchange, step by step: sign the
//! request-token call, read its response, build the user-facing
//! authorization URL, accept the pasted verifier, sign the access-token
//! call, and read its response.
//!
//! Every function here is pure; the surrounding application performs
//! the HTTP calls and the prompting, and feeds each status and body
//! back in. A step that fails aborts the exchange, and nothing reaches
//! the store until the final access token is in hand.
use vstd::prelude::*;
use vstd::string::StringSliceAdditionalSpecFns;
use crate::AuthError;
use crate::Credential;
use crate::bytes::{copy_range, append_bytes};
use crate::encoding::{encoded, percent_encode};
use crate::params::views;
use crate::query::{lookup, lookup_param, split_query, split_query_spec};
use crate::signer::{fresh_nonce, header_of, name_bytes, sign_with, unix_timestamp};

verus! {

/// Whether an HTTP status reports success.
pub open spec fn is_success(status: u16) -> bool {
    200 <= status < 300
}

/// The token a form-encoded response body carries: its `oauth_token`
/// and `oauth_token_secret` fields, absent when either field is.
pub open spec fn parsed_token(body: Seq<u8>) -> Option<(Seq<u8>, Seq<u8>)> {
    let ps = split_query_spec(body);
    match (lookup(ps, "oauth_token".spec_bytes()), lookup(
        ps,
        "oauth_token_secret".spec_bytes(),
    )) {
        (Some(k), Some(s)) => Some((k, s)),
        _ => None,
    }
}

/// Read a token out of a form-encoded response body.
fn parse_token_body(body: &[u8]) -> (r: Result<Credential, AuthError>)
    ensures
        match r {
            Ok(c) => parsed_token(body@) == Some((c.key@, c.secret@)),
            Err(e) => e == AuthError::ProtocolError && parsed_token(body@) is None,
        },
{
    let ps = split_query(body);
    let k = lookup_param(&ps, "oauth_token".as_bytes());
    let s = lookup_param(&ps, "oauth_token_secret".as_bytes());
    match (k, s) {
        (Some(key), Some(secret)) => Ok(Credential { key, secret }),
        _ => Err(AuthError::ProtocolError),
    }
}

/// Sign the GET that asks for a request token: only the consumer
/// credential is in play, and a fresh nonce and the current time are
/// drawn for it.
pub fn request_token_request(consumer: &Credential, url: &[u8]) -> (r: Vec<u8>)
    ensures
        exists|nonce: Seq<u8>, ts: u64|
            nonce.len() == 32 && r@ == header_of(
                "GET".spec_bytes(),
                url@,
                consumer.key@,
                consumer.secret@,
                None,
                Seq::empty(),
                nonce,
                ts,
            ),
{
    let extra: Vec<(Vec<u8>, Vec<u8>)> = Vec::new();
    proof {
        assert(views(extra@) =~= Seq::<(Seq<u8>, Seq<u8>)>::empty());
    }
    let nonce = fresh_nonce();
    let ts = unix_timestamp();
    let r = sign_with("GET".as_bytes(), url, consumer, None, &extra, nonce.as_slice(), ts);
    proof {
        assert(nonce@.len() == 32 && r@ == header_of(
            "GET".spec_bytes(),
            url@,
            consumer.key@,
            consumer.secret@,
            None,
            Seq::empty(),
            nonce@,
            ts,
        ));
    }
    r
}

/// Read the request-token response: a non-2xx status is a transport
/// failure, a body without both token fields a protocol failure, and
/// otherwise the ephemeral request token is returned. Nothing is
/// stored here on any path.
pub fn on_request_token_response(status: u16, body: &[u8]) -> (r: Result<Credential, AuthError>)
    ensures
        match r {
            Ok(c) => is_success(status) && parsed_token(body@) == Some((c.key@, c.secret@)),
            Err(e) => if is_success(status) {
                e == AuthError::ProtocolError && parsed_token(body@) is None
            } else {
                e == AuthError::TransportError
            },
        },
{
    if status < 200 || status >= 300 {
        return Err(AuthError::TransportError);
    }
    parse_token_body(body)
}

/// The URL the user must visit: the authorization endpoint with the
/// request-token key as its `oauth_token` query parameter.
pub open spec fn authorize_url_of(base: Seq<u8>, key: Seq<u8>) -> Seq<u8> {
    base + "?oauth_token=".spec_bytes() + encoded(key)
}

/// Build the URL the user must visit to authorize the request token.
pub fn authorize_url(base: &[u8], request_key: &[u8]) -> (r: Vec<u8>)
    ensures
        r@ == authorize_url_of(base@, request_key@),
{
    let mut r = copy_range(base, 0, base.len());
    proof {
        assert(base@.subrange(0, base@.len() as int) =~= base@);
    }
    append_bytes(&mut r, "?oauth_token=".as_bytes());
    let ek = percent_encode(request_key);
    append_bytes(&mut r, ek.as_slice());
    r
}

/// An ASCII whitespace byte: space, tab, line feed or carriage return.
pub open spec fn is_space(b: u8) -> bool {
    b == 32 || b == 9 || b == 10 || b == 13
}

/// The input with its leading whitespace removed.
pub open spec fn trim_front(s: Seq<u8>) -> Seq<u8>
    decreases s.len(),
{
    if s.len() > 0 && is_space(s[0]) {
        trim_front(s.drop_first())
    } else {
        s
    }
}

/// The input with its trailing whitespace removed.
pub open spec fn trim_back(s: Seq<u8>) -> Seq<u8>
    decreases s.len(),
{
    if s.len() > 0 && is_space(s.last()) {
        trim_back(s.drop_last())
    } else {
        s
    }
}

/// The input with whitespace removed at both ends.
pub open spec fn trimmed(s: Seq<u8>) -> Seq<u8> {
    trim_back(trim_front(s))
}

proof fn lemma_trim_front_at(s: Seq<u8>, i: int)
    requires
        0 <= i <= s.len(),
        forall|k: int| 0 <= k < i ==> is_space(#[trigger] s[k]),
        i < s.len() ==> !is_space(s[i]),
    ensures
        trim_front(s) == s.skip(i),
    decreases i,
{
    if i == 0 {
        assert(s.skip(0) =~= s);
    } else {
        lemma_trim_front_at(s.drop_first(), i - 1);
        assert(s.drop_first().skip(i - 1) =~= s.skip(i));
    }
}

proof fn lemma_trim_back_at(s: Seq<u8>, j: int)
    requires
        0 <= j <= s.len(),
        forall|k: int| j <= k < s.len() ==> is_space(#[trigger] s[k]),
        j > 0 ==> !is_space(s[j - 1]),
    ensures
        trim_back(s) == s.take(j),
    decreases s.len() - j,
{
    if j == s.len() {
        assert(s.take(j) =~= s);
    } else {
        assert(is_space(s.last()));
        lemma_trim_back_at(s.drop_last(), j);
        assert(s.drop_last().take(j) =~= s.take(j));
    }
}

/// Accept the verifier the user pasted: whitespace is trimmed away,
/// and an input that is nothing but whitespace is a missing input.
pub fn accept_verifier(input: &[u8]) -> (r: Result<Vec<u8>, AuthError>)
    ensures
        match r {
            Ok(v) => v@ == trimmed(input@) && trimmed(input@).len() > 0,
            Err(e) => e == AuthError::InputError && trimmed(input@).len() == 0,
        },
{
    let n = input.len();
    let mut a: usize = 0;
    while a < n && (input[a] == 32 || input[a] == 9 || input[a] == 10 || input[a] == 13)
        invariant
            a <= n,
            n == input@.len(),
            forall|k: int| 0 <= k < a ==> is_space(#[trigger] input@[k]),
        decreases n - a,
    {
        a = a + 1;
    }
    proof {
        lemma_trim_front_at(input@, a as int);
    }
    let ghost t = input@.skip(a as int);
    let mut b: usize = n;
    while b > a && (input[b - 1] == 32 || input[b - 1] == 9 || input[b - 1] == 10 || input[b - 1]
        == 13)
        invariant
            a <= b <= n,
            n == input@.len(),
            forall|k: int| b <= k < n ==> is_space(#[trigger] input@[k]),
        decreases b,
    {
        b = b - 1;
    }
    proof {
        assert forall|k: int| b - a <= k < t.len() implies is_space(#[trigger] t[k]) by {
            assert(t[k] == input@[k + a]);
        }
        if b > a {
            assert(t[b - a - 1] == input@[b - 1]);
        }
        lemma_trim_back_at(t, b - a);
        assert(trimmed(input@) == t.take(b - a));
    }
    if b == a {
        proof {
            assert(t.take(0) =~= Seq::<u8>::empty());
        }
        return Err(AuthError::InputError);
    }
    let v = copy_range(input, a, b);
    proof {
        assert(input@.subrange(a as int, b as int) =~= t.take(b - a));
    }
    Ok(v)
}

/// Sign the GET that trades the authorized request token and the
/// verifier for an access token, with a fresh nonce and the current
/// time drawn for it.
pub fn access_token_request(
    consumer: &Credential,
    request: &Credential,
    verifier: &[u8],
    url: &[u8],
) -> (r: Vec<u8>)
    ensures
        exists|nonce: Seq<u8>, ts: u64|
            nonce.len() == 32 && r@ == header_of(
                "GET".spec_bytes(),
                url@,
                consumer.key@,
                consumer.secret@,
                Some((request.key@, request.secret@)),
                seq![("oauth_verifier".spec_bytes(), verifier@)],
                nonce,
                ts,
            ),
{
    let mut extra: Vec<(Vec<u8>, Vec<u8>)> = Vec::new();
    extra.push((name_bytes("oauth_verifier"), vstd::slice::slice_to_vec(verifier)));
    proof {
        assert(views(extra@) =~= seq![("oauth_verifier".spec_bytes(), verifier@)]);
    }
    let nonce = fresh_nonce();
    let ts = unix_timestamp();
    let r = sign_with(
        "GET".as_bytes(),
        url,
        consumer,
        Some(request),
        &extra,
        nonce.as_slice(),
        ts,
    );
    proof {
        assert(nonce@.len() == 32 && r@ == header_of(
            "GET".spec_bytes(),
            url@,
            consumer.key@,
            consumer.secret@,
            Some((request.key@, request.secret@)),
            seq![("oauth_verifier".spec_bytes(), verifier@)],
            nonce@,
            ts,
        ));
    }
    r
}

/// Read the access-token response; it parses exactly as the
/// request-token response does.
pub fn on_access_token_response(status: u16, body: &[u8]) -> (r: Result<Credential, AuthError>)
    ensures
        match r {
            Ok(c) => is_success(status) && parsed_token(body@) == Some((c.key@, c.secret@)),
            Err(e) => if is_success(status) {
                e == AuthError::ProtocolError && parsed_token(body@) is None
            } else {
                e == AuthError::TransportError
            },
        },
{
    if status < 200 || status >= 300 {
        return Err(AuthError::TransportError);
    }
    parse_token_body(body)
}

} // verus!
