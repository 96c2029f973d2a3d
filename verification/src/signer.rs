//! The OAuth 1.0a signer: assembles the protocol parameter set, builds
//! the signature base string, signs it with HMAC-SHA1 over the encoded
//! secrets, and renders the `Authorization` value.
//!
//! The whole construction is a pure function of its inputs; the two
//! volatile inputs, nonce and timestamp, are explicit arguments of
//! [`sign_with`], and [`sign`] draws them from the system's randomness
//! and clock.
use vstd::prelude::*;
use vstd::string::StringSliceAdditionalSpecFns;
use base64::Engine;
use rand::RngExt;
use crate::Credential;
use crate::bytes::{append_bytes, dec_of, find_byte, find_byte_exec, has_prefix, u64_to_decimal};
use crate::encoding::{encoded, is_unreserved, percent_encode};
use crate::params::{joined, join_params, pair_order, sort_params, views};
use crate::query::{split_query, split_query_spec};

verus! {

/// The `&` separator of base-string sections.
pub open spec fn amp() -> Seq<u8> {
    seq![38u8]
}

/// The key of an optional token.
pub open spec fn opt_key(tok: Option<(Seq<u8>, Seq<u8>)>) -> Option<Seq<u8>> {
    match tok {
        Some(t) => Some(t.0),
        None => None,
    }
}

/// The view of an optional credential.
pub open spec fn opt_view(tok: Option<&Credential>) -> Option<(Seq<u8>, Seq<u8>)> {
    match tok {
        Some(c) => Some((c.key@, c.secret@)),
        None => None,
    }
}

/// The protocol's own parameters: consumer key, nonce, signature method,
/// timestamp, version, and the token key when one is in play.
pub open spec fn protocol_params(
    ck: Seq<u8>,
    nonce: Seq<u8>,
    ts: u64,
    tok: Option<Seq<u8>>,
) -> Seq<(Seq<u8>, Seq<u8>)> {
    let base = seq![
        ("oauth_consumer_key".spec_bytes(), ck),
        ("oauth_nonce".spec_bytes(), nonce),
        ("oauth_signature_method".spec_bytes(), "HMAC-SHA1".spec_bytes()),
        ("oauth_timestamp".spec_bytes(), dec_of(ts as nat)),
        ("oauth_version".spec_bytes(), "1.0".spec_bytes()),
    ];
    match tok {
        Some(k) => base.push(("oauth_token".spec_bytes(), k)),
        None => base,
    }
}

/// The URL up to its query string.
pub open spec fn base_url_of(url: Seq<u8>) -> Seq<u8> {
    match find_byte(url, 63) {
        None => url,
        Some(i) => url.take(i),
    }
}

/// The query string of a URL, empty when there is none.
pub open spec fn query_of(url: Seq<u8>) -> Seq<u8> {
    match find_byte(url, 63) {
        None => Seq::empty(),
        Some(i) => url.skip(i + 1),
    }
}

/// The signable parameters carried by the URL's own query string.
pub open spec fn query_params_of(url: Seq<u8>) -> Seq<(Seq<u8>, Seq<u8>)> {
    if query_of(url).len() == 0 {
        Seq::empty()
    } else {
        split_query_spec(query_of(url))
    }
}

/// Every signable parameter: protocol parameters, extra parameters, and
/// the URL's query parameters.
pub open spec fn all_params(
    ck: Seq<u8>,
    nonce: Seq<u8>,
    ts: u64,
    tok: Option<Seq<u8>>,
    extra: Seq<(Seq<u8>, Seq<u8>)>,
    url: Seq<u8>,
) -> Seq<(Seq<u8>, Seq<u8>)> {
    protocol_params(ck, nonce, ts, tok) + extra + query_params_of(url)
}

/// Each pair with key and value percent-encoded.
pub open spec fn enc_pairs(ps: Seq<(Seq<u8>, Seq<u8>)>) -> Seq<(Seq<u8>, Seq<u8>)> {
    ps.map_values(|p: (Seq<u8>, Seq<u8>)| (encoded(p.0), encoded(p.1)))
}

/// The canonical parameter string: encoded pairs, sorted, joined as
/// `key=value` with `&`.
pub open spec fn param_string(ps: Seq<(Seq<u8>, Seq<u8>)>) -> Seq<u8> {
    joined(enc_pairs(ps).sort_by(pair_order()))
}

/// The signature base string:
/// `METHOD&encoded(base url)&encoded(parameter string)`.
pub open spec fn base_string(method: Seq<u8>, url: Seq<u8>, ps: Seq<(Seq<u8>, Seq<u8>)>) -> Seq<
    u8,
> {
    method + amp() + encoded(base_url_of(url)) + amp() + encoded(param_string(ps))
}

/// The signing key: `encoded(consumer secret)&encoded(token secret)`,
/// with an empty token secret when no token is in play.
pub open spec fn signing_key(cs: Seq<u8>, tsec: Option<Seq<u8>>) -> Seq<u8> {
    encoded(cs) + amp() + encoded(
        match tsec {
            Some(s) => s,
            None => Seq::empty(),
        },
    )
}

pub uninterp spec fn hmac_sha1(key: Seq<u8>, data: Seq<u8>) -> Seq<u8>;

pub uninterp spec fn base64_of(data: Seq<u8>) -> Seq<u8>;

/// The rendered signature: Base64 of the HMAC-SHA1 tag of the base
/// string under the signing key.
pub open spec fn signature_of(
    method: Seq<u8>,
    url: Seq<u8>,
    ps: Seq<(Seq<u8>, Seq<u8>)>,
    cs: Seq<u8>,
    tsec: Option<Seq<u8>>,
) -> Seq<u8> {
    base64_of(hmac_sha1(signing_key(cs, tsec), base_string(method, url, ps)))
}

/// Whether a parameter belongs in the `Authorization` value.
pub open spec fn is_oauth_param(p: (Seq<u8>, Seq<u8>)) -> bool {
    "oauth_".spec_bytes().is_prefix_of(p.0)
}

/// The parameters that belong in the `Authorization` value, in order.
pub open spec fn oauth_params_of(ps: Seq<(Seq<u8>, Seq<u8>)>) -> Seq<(Seq<u8>, Seq<u8>)>
    decreases ps.len(),
{
    if ps.len() == 0 {
        Seq::empty()
    } else {
        let rest = oauth_params_of(ps.drop_last());
        if is_oauth_param(ps.last()) {
            rest.push(ps.last())
        } else {
            rest
        }
    }
}

/// The `key="encoded value"` rendering of one header pair.
pub open spec fn header_pair(p: (Seq<u8>, Seq<u8>)) -> Seq<u8> {
    p.0 + seq![61u8, 34u8] + encoded(p.1) + seq![34u8]
}

/// Header pairs joined with `, `.
pub open spec fn header_joined(ps: Seq<(Seq<u8>, Seq<u8>)>) -> Seq<u8>
    decreases ps.len(),
{
    if ps.len() == 0 {
        Seq::empty()
    } else if ps.len() == 1 {
        header_pair(ps[0])
    } else {
        header_joined(ps.drop_last()) + seq![44u8, 32u8] + header_pair(ps.last())
    }
}

/// The complete `Authorization` value for the given inputs. Identical
/// inputs, nonce and timestamp included, give the identical value.
pub open spec fn header_of(
    method: Seq<u8>,
    url: Seq<u8>,
    ck: Seq<u8>,
    cs: Seq<u8>,
    tok: Option<(Seq<u8>, Seq<u8>)>,
    extra: Seq<(Seq<u8>, Seq<u8>)>,
    nonce: Seq<u8>,
    ts: u64,
) -> Seq<u8> {
    let ps = all_params(ck, nonce, ts, opt_key(tok), extra, url);
    let sig = signature_of(
        method,
        url,
        ps,
        cs,
        match tok {
            Some(t) => Some(t.1),
            None => None,
        },
    );
    let hps = oauth_params_of(ps + seq![("oauth_signature".spec_bytes(), sig)]);
    "OAuth ".spec_bytes() + header_joined(hps.sort_by(pair_order()))
}

/// Percent-encoding leaves no separator behind: an encoded string
/// holds neither `&` nor `=`.
pub proof fn lemma_encoded_has_no_separator(s: Seq<u8>)
    ensures
        forall|k: int| 0 <= k < encoded(s).len() ==> #[trigger] encoded(s)[k] != 38,
        forall|k: int| 0 <= k < encoded(s).len() ==> #[trigger] encoded(s)[k] != 61,
{
    crate::encoding::lemma_encoded_bytes(s);
}

/// Round trip: splitting an encoded parameter string at `&` and `=`
/// and percent-decoding every part recovers the original key/value
/// pairs exactly.
pub proof fn lemma_param_pairs_round_trip(ps: Seq<(Seq<u8>, Seq<u8>)>)
    requires
        ps.len() > 0,
    ensures
        ({
            let sp = split_query_spec(joined(enc_pairs(ps)));
            sp.len() == ps.len() && forall|i: int|
                0 <= i < ps.len() ==> crate::encoding::decoded(#[trigger] sp[i].0) == Some(
                    ps[i].0,
                ) && crate::encoding::decoded(sp[i].1) == Some(ps[i].1)
        }),
{
    let qs = enc_pairs(ps);
    assert forall|i: int, k: int|
        0 <= i < qs.len() && 0 <= k < qs[i].0.len() implies #[trigger] qs[i].0[k] != 38 && qs[i].0[k]
        != 61 by {
        assert(qs[i].0 == encoded(ps[i].0));
        lemma_encoded_has_no_separator(ps[i].0);
    }
    assert forall|i: int, k: int|
        0 <= i < qs.len() && 0 <= k < qs[i].1.len() implies #[trigger] qs[i].1[k] != 38 by {
        assert(qs[i].1 == encoded(ps[i].1));
        lemma_encoded_has_no_separator(ps[i].1);
    }
    crate::query::lemma_split_of_joined(qs);
    let sp = split_query_spec(joined(qs));
    assert forall|i: int| 0 <= i < ps.len() implies crate::encoding::decoded(#[trigger] sp[i].0)
        == Some(ps[i].0) && crate::encoding::decoded(sp[i].1) == Some(ps[i].1) by {
        assert(sp[i] == qs[i]);
        assert(qs[i] == (encoded(ps[i].0), encoded(ps[i].1)));
        crate::encoding::lemma_decode_encode(ps[i].0);
        crate::encoding::lemma_decode_encode(ps[i].1);
    }
}

/// The canonical parameter string is a pure function of the encoded
/// parameter set: two parameter lists whose encoded pairs form the
/// same multiset yield the same parameter string, however they were
/// ordered.
pub proof fn lemma_param_string_order_independent(
    a: Seq<(Seq<u8>, Seq<u8>)>,
    b: Seq<(Seq<u8>, Seq<u8>)>,
)
    requires
        enc_pairs(a).to_multiset() == enc_pairs(b).to_multiset(),
    ensures
        param_string(a) == param_string(b),
{
    crate::params::lemma_sort_order_independent(enc_pairs(a), enc_pairs(b));
}

/// The signature base string inherits that independence: reordering
/// the parameters of a request never changes what is signed.
pub proof fn lemma_base_string_order_independent(
    method: Seq<u8>,
    url: Seq<u8>,
    a: Seq<(Seq<u8>, Seq<u8>)>,
    b: Seq<(Seq<u8>, Seq<u8>)>,
)
    requires
        enc_pairs(a).to_multiset() == enc_pairs(b).to_multiset(),
    ensures
        base_string(method, url, a) == base_string(method, url, b),
{
    lemma_param_string_order_independent(a, b);
}

/// Encoding the pairs of a list elementwise turns a rearrangement of
/// the raw pairs into a rearrangement of the encoded pairs.
pub proof fn lemma_enc_pairs_permuted(a: Seq<(Seq<u8>, Seq<u8>)>, b: Seq<(Seq<u8>, Seq<u8>)>)
    requires
        a.to_multiset() == b.to_multiset(),
    ensures
        enc_pairs(a).to_multiset() == enc_pairs(b).to_multiset(),
    decreases a.len(),
{
    broadcast use vstd::seq_lib::group_to_multiset_ensures;

    if a.len() == 0 {
        assert(a.to_multiset().len() == 0);
        assert(b.len() == 0);
        assert(enc_pairs(a) =~= enc_pairs(b));
    } else {
        let x = a.last();
        let ex = (encoded(x.0), encoded(x.1));
        let a1 = a.drop_last();
        assert(a =~= a1.push(x));
        assert(a.contains(x));
        assert(a.to_multiset().count(x) > 0);
        assert(b.to_multiset().count(x) > 0);
        assert(b.contains(x));
        let j = choose|j: int| 0 <= j < b.len() && b[j] == x;
        let b1 = b.remove(j);
        assert(b1.to_multiset() == b.to_multiset().remove(x));
        assert(a1.push(x).to_multiset() == a1.to_multiset().insert(x));
        assert(a1.to_multiset() =~= a.to_multiset().remove(x));
        lemma_enc_pairs_permuted(a1, b1);
        assert(enc_pairs(a) =~= enc_pairs(a1).push(ex));
        vstd::seq_lib::to_multiset_build(enc_pairs(a1), ex);
        assert(b =~= b1.insert(j, x));
        assert(enc_pairs(b) =~= enc_pairs(b1).insert(j, ex));
        vstd::seq_lib::to_multiset_insert(enc_pairs(b1), j, ex);
        assert(enc_pairs(a).to_multiset() =~= enc_pairs(b).to_multiset());
    }
}

/// Reordering the raw input parameters themselves never changes the
/// signature base string.
pub proof fn lemma_base_string_of_rearranged_params(
    method: Seq<u8>,
    url: Seq<u8>,
    a: Seq<(Seq<u8>, Seq<u8>)>,
    b: Seq<(Seq<u8>, Seq<u8>)>,
)
    requires
        a.to_multiset() == b.to_multiset(),
    ensures
        base_string(method, url, a) == base_string(method, url, b),
{
    lemma_enc_pairs_permuted(a, b);
    lemma_base_string_order_independent(method, url, a, b);
}

/// Relies on `ring::hmac::sign` with `HMAC_SHA1_FOR_LEGACY_USE_ONLY`:
/// the tag is a function of the key and the data alone.
#[verifier::external_body]
fn hmac_sha1_exec(key: &[u8], data: &[u8]) -> (r: Vec<u8>)
    ensures
        r@ == hmac_sha1(key@, data@),
{
    let k = ring::hmac::Key::new(ring::hmac::HMAC_SHA1_FOR_LEGACY_USE_ONLY, key);
    ring::hmac::sign(&k, data).as_ref().to_vec()
}

/// Relies on `base64`'s `STANDARD` engine: the padded Base64 text is a
/// function of the input bytes alone.
#[verifier::external_body]
fn base64_exec(data: &[u8]) -> (r: Vec<u8>)
    ensures
        r@ == base64_of(data@),
{
    base64::engine::general_purpose::STANDARD.encode(data).into_bytes()
}

/// Relies on `rand`'s `Alphanumeric` distribution: each of the 32
/// sampled bytes is an ASCII letter or digit.
#[verifier::external_body]
pub(crate) fn fresh_nonce() -> (r: Vec<u8>)
    ensures
        r@.len() == 32,
        forall|i: int| 0 <= i < r@.len() ==> is_unreserved(#[trigger] r@[i]),
{
    rand::rng().sample_iter(rand::distr::Alphanumeric).take(32).collect()
}

/// Relies on `std::time::SystemTime`: whole seconds since the Unix
/// epoch, or zero should the clock stand before it.
#[verifier::external_body]
pub(crate) fn unix_timestamp() -> u64 {
    match std::time::SystemTime::now().duration_since(std::time::UNIX_EPOCH) {
        Ok(d) => d.as_secs(),
        Err(_) => 0,
    }
}

/// The bytes of a literal name.
pub(crate) fn name_bytes(s: &str) -> (r: Vec<u8>)
    ensures
        r@ == s.spec_bytes(),
{
    vstd::slice::slice_to_vec(s.as_bytes())
}

/// Assemble every signable parameter for the given request.
fn collect_params(
    url: &[u8],
    consumer: &Credential,
    token: Option<&Credential>,
    extra: &Vec<(Vec<u8>, Vec<u8>)>,
    nonce: &[u8],
    timestamp: u64,
) -> (r: Vec<(Vec<u8>, Vec<u8>)>)
    ensures
        views(r@) == all_params(
            consumer.key@,
            nonce@,
            timestamp,
            opt_key(opt_view(token)),
            views(extra@),
            url@,
        ),
{
    let mut r: Vec<(Vec<u8>, Vec<u8>)> = Vec::new();
    r.push((name_bytes("oauth_consumer_key"), vstd::slice::slice_to_vec(consumer.key.as_slice())));
    r.push((name_bytes("oauth_nonce"), vstd::slice::slice_to_vec(nonce)));
    r.push((name_bytes("oauth_signature_method"), name_bytes("HMAC-SHA1")));
    r.push((name_bytes("oauth_timestamp"), u64_to_decimal(timestamp)));
    r.push((name_bytes("oauth_version"), name_bytes("1.0")));
    match token {
        Some(t) => {
            r.push((name_bytes("oauth_token"), vstd::slice::slice_to_vec(t.key.as_slice())));
        },
        None => {},
    }
    let ghost proto = protocol_params(
        consumer.key@,
        nonce@,
        timestamp,
        opt_key(opt_view(token)),
    );
    proof {
        assert(views(r@) =~= proto);
    }
    let mut i: usize = 0;
    proof {
        assert(views(r@) =~= proto + views(extra@).take(0));
    }
    while i < extra.len()
        invariant
            i <= extra.len(),
            proto == protocol_params(
                consumer.key@,
                nonce@,
                timestamp,
                opt_key(opt_view(token)),
            ),
            views(r@) == proto + views(extra@).take(i as int),
        decreases extra.len() - i,
    {
        let ghost pre = views(r@);
        let k = vstd::slice::slice_to_vec(extra[i].0.as_slice());
        let v = vstd::slice::slice_to_vec(extra[i].1.as_slice());
        proof {
            assert(k@ == extra@[i as int].0@);
            assert(v@ == extra@[i as int].1@);
        }
        r.push((k, v));
        proof {
            assert(views(r@) =~= pre.push((extra@[i as int].0@, extra@[i as int].1@)));
            assert(views(extra@).take(i + 1) =~= views(extra@).take(i as int).push(
                (extra@[i as int].0@, extra@[i as int].1@),
            ));
            assert(views(r@) =~= proto + views(extra@).take(i + 1));
        }
        i = i + 1;
    }
    proof {
        assert(views(extra@).take(extra@.len() as int) =~= views(extra@));
    }
    let qstart = find_byte_exec(url, 63);
    match qstart {
        None => {
            proof {
                assert(query_params_of(url@) =~= Seq::<(Seq<u8>, Seq<u8>)>::empty());
                assert(views(r@) =~= all_params(
                    consumer.key@,
                    nonce@,
                    timestamp,
                    opt_key(opt_view(token)),
                    views(extra@),
                    url@,
                ));
            }
        },
        Some(qi) => {
            proof {
                crate::bytes::lemma_find_byte_bounds(url@, 63);
            }
            let n = url.len();
            proof {
                assert(0 <= (qi as int) && (qi as int) < n as int);
            }
            let q = crate::bytes::copy_range(url, qi + 1, n);
            proof {
                assert(q@ =~= query_of(url@));
            }
            if q.len() == 0 {
                proof {
                    assert(query_params_of(url@) =~= Seq::<(Seq<u8>, Seq<u8>)>::empty());
                    assert(views(r@) =~= all_params(
                        consumer.key@,
                        nonce@,
                        timestamp,
                        opt_key(opt_view(token)),
                        views(extra@),
                        url@,
                    ));
                }
            } else {
                let qp = split_query(q.as_slice());
                let ghost base2 = views(r@);
                let mut j: usize = 0;
                proof {
                    assert(views(r@) =~= base2 + views(qp@).take(0));
                }
                while j < qp.len()
                    invariant
                        j <= qp.len(),
                        views(r@) == base2 + views(qp@).take(j as int),
                    decreases qp.len() - j,
                {
                    let ghost pre = views(r@);
                    let k = vstd::slice::slice_to_vec(qp[j].0.as_slice());
                    let v = vstd::slice::slice_to_vec(qp[j].1.as_slice());
                    proof {
                        assert(k@ == qp@[j as int].0@);
                        assert(v@ == qp@[j as int].1@);
                    }
                    r.push((k, v));
                    proof {
                        assert(views(r@) =~= pre.push((qp@[j as int].0@, qp@[j as int].1@)));
                        assert(views(qp@).take(j + 1) =~= views(qp@).take(j as int).push(
                            (qp@[j as int].0@, qp@[j as int].1@),
                        ));
                        assert(views(r@) =~= base2 + views(qp@).take(j + 1));
                    }
                    j = j + 1;
                }
                proof {
                    assert(views(qp@).take(qp@.len() as int) =~= views(qp@));
                    assert(query_params_of(url@) == split_query_spec(query_of(url@)));
                    assert(views(r@) =~= all_params(
                        consumer.key@,
                        nonce@,
                        timestamp,
                        opt_key(opt_view(token)),
                        views(extra@),
                        url@,
                    ));
                }
            }
        },
    }
    r
}

/// Percent-encode every key and value of a parameter list.
fn encode_pairs(ps: &Vec<(Vec<u8>, Vec<u8>)>) -> (r: Vec<(Vec<u8>, Vec<u8>)>)
    ensures
        views(r@) == enc_pairs(views(ps@)),
{
    let mut r: Vec<(Vec<u8>, Vec<u8>)> = Vec::new();
    let mut i: usize = 0;
    proof {
        assert(views(r@) =~= enc_pairs(views(ps@).take(0)));
    }
    while i < ps.len()
        invariant
            i <= ps.len(),
            views(r@) == enc_pairs(views(ps@).take(i as int)),
        decreases ps.len() - i,
    {
        let ghost pre = views(r@);
        let k = percent_encode(ps[i].0.as_slice());
        let v = percent_encode(ps[i].1.as_slice());
        proof {
            assert(k@ == encoded(ps@[i as int].0@));
            assert(v@ == encoded(ps@[i as int].1@));
        }
        r.push((k, v));
        proof {
            assert(views(r@) =~= pre.push((encoded(ps@[i as int].0@), encoded(ps@[i as int].1@))));
            assert(views(ps@).take(i + 1) =~= views(ps@).take(i as int).push(
                (ps@[i as int].0@, ps@[i as int].1@),
            ));
            assert(enc_pairs(views(ps@).take(i + 1)) =~= enc_pairs(views(ps@).take(i as int)).push(
                (encoded(ps@[i as int].0@), encoded(ps@[i as int].1@)),
            ));
            assert(views(r@) =~= enc_pairs(views(ps@).take(i + 1)));
        }
        i = i + 1;
    }
    proof {
        assert(views(ps@).take(ps@.len() as int) =~= views(ps@));
    }
    r
}

/// Keep only the parameters that belong in the `Authorization` value.
fn filter_oauth(ps: &Vec<(Vec<u8>, Vec<u8>)>) -> (r: Vec<(Vec<u8>, Vec<u8>)>)
    ensures
        views(r@) == oauth_params_of(views(ps@)),
{
    let prefix = "oauth_".as_bytes();
    let mut r: Vec<(Vec<u8>, Vec<u8>)> = Vec::new();
    let mut i: usize = 0;
    proof {
        assert(oauth_params_of(views(ps@).take(0)) =~= Seq::<(Seq<u8>, Seq<u8>)>::empty());
        assert(views(r@) =~= oauth_params_of(views(ps@).take(0)));
    }
    while i < ps.len()
        invariant
            i <= ps.len(),
            prefix@ == "oauth_".spec_bytes(),
            views(r@) == oauth_params_of(views(ps@).take(i as int)),
        decreases ps.len() - i,
    {
        let ghost pv = (ps@[i as int].0@, ps@[i as int].1@);
        proof {
            assert(views(ps@).take(i + 1).drop_last() =~= views(ps@).take(i as int));
            assert(views(ps@).take(i + 1).last() == pv);
        }
        if has_prefix(ps[i].0.as_slice(), prefix) {
            let ghost pre = views(r@);
            let k = vstd::slice::slice_to_vec(ps[i].0.as_slice());
            let v = vstd::slice::slice_to_vec(ps[i].1.as_slice());
            proof {
                assert(k@ == ps@[i as int].0@);
                assert(v@ == ps@[i as int].1@);
            }
            r.push((k, v));
            proof {
                assert(views(r@) =~= pre.push(pv));
                assert(is_oauth_param(pv));
                assert(views(r@) =~= oauth_params_of(views(ps@).take(i + 1)));
            }
        } else {
            proof {
                assert(!is_oauth_param(pv));
                assert(views(r@) =~= oauth_params_of(views(ps@).take(i + 1)));
            }
        }
        i = i + 1;
    }
    proof {
        assert(views(ps@).take(ps@.len() as int) =~= views(ps@));
    }
    r
}

/// Render sorted header pairs as `key="encoded value"` joined with `, `.
fn join_header(v: &Vec<(Vec<u8>, Vec<u8>)>) -> (r: Vec<u8>)
    ensures
        r@ == header_joined(views(v@)),
{
    let mut r: Vec<u8> = Vec::new();
    let mut i: usize = 0;
    proof {
        assert(r@ =~= header_joined(views(v@).take(0)));
    }
    while i < v.len()
        invariant
            i <= v.len(),
            r@ == header_joined(views(v@).take(i as int)),
        decreases v.len() - i,
    {
        if i > 0 {
            r.push(44);
            r.push(32);
        }
        append_bytes(&mut r, v[i].0.as_slice());
        r.push(61);
        r.push(34);
        let ev = percent_encode(v[i].1.as_slice());
        append_bytes(&mut r, ev.as_slice());
        r.push(34);
        proof {
            let pre = views(v@).take(i as int);
            let cur = views(v@).take(i + 1);
            assert(cur.drop_last() =~= pre);
            assert(cur.last() == (v@[i as int].0@, v@[i as int].1@));
            if i == 0 {
                assert(r@ =~= header_pair(cur.last()));
                assert(header_joined(cur) == header_pair(cur[0]));
            } else {
                assert(r@ =~= header_joined(pre) + seq![44u8, 32u8] + header_pair(cur.last()));
            }
        }
        i = i + 1;
    }
    proof {
        assert(views(v@).take(v@.len() as int) =~= views(v@));
    }
    r
}

/// Build the `Authorization` value for the given request with the nonce
/// and timestamp fixed by the caller: the result is fully determined by
/// the arguments, so signing the same inputs twice gives the same value.
pub fn sign_with(
    method: &[u8],
    url: &[u8],
    consumer: &Credential,
    token: Option<&Credential>,
    extra: &Vec<(Vec<u8>, Vec<u8>)>,
    nonce: &[u8],
    timestamp: u64,
) -> (r: Vec<u8>)
    ensures
        r@ == header_of(
            method@,
            url@,
            consumer.key@,
            consumer.secret@,
            opt_view(token),
            views(extra@),
            nonce@,
            timestamp,
        ),
{
    let ghost tok = opt_view(token);
    let ghost ps = all_params(
        consumer.key@,
        nonce@,
        timestamp,
        opt_key(tok),
        views(extra@),
        url@,
    );
    let params = collect_params(url, consumer, token, extra, nonce, timestamp);
    // canonical parameter string
    let enc = encode_pairs(&params);
    let sorted = sort_params(enc);
    let pstr = join_params(&sorted);
    proof {
        assert(pstr@ == param_string(ps));
    }
    // signature base string
    let mut base: Vec<u8> = Vec::new();
    append_bytes(&mut base, method);
    base.push(38);
    let bu = match find_byte_exec(url, 63) {
        None => {
            proof {
                assert(url@.subrange(0, url@.len() as int) =~= url@);
            }
            crate::bytes::copy_range(url, 0, url.len())
        },
        Some(qi) => {
            proof {
                crate::bytes::lemma_find_byte_bounds(url@, 63);
                assert(url@.subrange(0, qi as int) =~= url@.take(qi as int));
            }
            crate::bytes::copy_range(url, 0, qi)
        },
    };
    proof {
        assert(bu@ == base_url_of(url@));
    }
    let ebu = percent_encode(bu.as_slice());
    append_bytes(&mut base, ebu.as_slice());
    base.push(38);
    let epstr = percent_encode(pstr.as_slice());
    append_bytes(&mut base, epstr.as_slice());
    proof {
        assert(base@ =~= base_string(method@, url@, ps));
    }
    // signing key
    let mut key = percent_encode(consumer.secret.as_slice());
    key.push(38);
    let ghost tsec = (match tok {
        Some(t) => Some(t.1),
        None => None::<Seq<u8>>,
    });
    match token {
        Some(t) => {
            let es = percent_encode(t.secret.as_slice());
            append_bytes(&mut key, es.as_slice());
        },
        None => {
            let es = percent_encode(&[]);
            append_bytes(&mut key, es.as_slice());
        },
    }
    proof {
        assert(key@ =~= signing_key(consumer.secret@, tsec));
    }
    // sign
    let tag = hmac_sha1_exec(key.as_slice(), base.as_slice());
    let sig = base64_exec(tag.as_slice());
    proof {
        assert(sig@ == signature_of(method@, url@, ps, consumer.secret@, tsec));
    }
    // render the header
    let mut hparams = params;
    hparams.push((name_bytes("oauth_signature"), sig));
    proof {
        assert(views(hparams@) =~= ps + seq![("oauth_signature".spec_bytes(), signature_of(
            method@,
            url@,
            ps,
            consumer.secret@,
            tsec,
        ))]);
    }
    let hp = filter_oauth(&hparams);
    let hsorted = sort_params(hp);
    let joined_pairs = join_header(&hsorted);
    let mut out = name_bytes("OAuth ");
    append_bytes(&mut out, joined_pairs.as_slice());
    proof {
        assert(out@ =~= header_of(
            method@,
            url@,
            consumer.key@,
            consumer.secret@,
            tok,
            views(extra@),
            nonce@,
            timestamp,
        ));
    }
    out
}

/// Identical inputs, nonce and timestamp included, always render the
/// identical `Authorization` value: two values both equal to the header
/// of the same inputs are equal to each other.
pub proof fn lemma_sign_deterministic(
    h1: Seq<u8>,
    h2: Seq<u8>,
    method: Seq<u8>,
    url: Seq<u8>,
    ck: Seq<u8>,
    cs: Seq<u8>,
    tok: Option<(Seq<u8>, Seq<u8>)>,
    extra: Seq<(Seq<u8>, Seq<u8>)>,
    nonce: Seq<u8>,
    ts: u64,
)
    requires
        h1 == header_of(method, url, ck, cs, tok, extra, nonce, ts),
        h2 == header_of(method, url, ck, cs, tok, extra, nonce, ts),
    ensures
        h1 == h2,
{
}

/// Sign a request, drawing a fresh nonce and the current time: the
/// result is the header of the inputs for some 32-byte nonce and some
/// timestamp.
pub fn sign(
    method: &[u8],
    url: &[u8],
    consumer: &Credential,
    token: Option<&Credential>,
    extra: &Vec<(Vec<u8>, Vec<u8>)>,
) -> (r: Vec<u8>)
    ensures
        exists|nonce: Seq<u8>, ts: u64|
            nonce.len() == 32 && r@ == header_of(
                method@,
                url@,
                consumer.key@,
                consumer.secret@,
                opt_view(token),
                views(extra@),
                nonce,
                ts,
            ),
{
    let nonce = fresh_nonce();
    let ts = unix_timestamp();
    let r = sign_with(method, url, consumer, token, extra, nonce.as_slice(), ts);
    proof {
        assert(nonce@.len() == 32 && r@ == header_of(
            method@,
            url@,
            consumer.key@,
            consumer.secret@,
            opt_view(token),
            views(extra@),
            nonce@,
            ts,
        ));
    }
    r
}

} // verus!

