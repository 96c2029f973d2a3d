use rustblr::Credential;
use rustblr::signer::{sign, sign_with};

fn consumer() -> Credential {
    Credential { key: b"ck".to_vec(), secret: b"cs".to_vec() }
}

#[test]
fn known_request_header() {
    let header = sign_with(
        b"GET",
        b"http://example.com/request?b=2",
        &consumer(),
        None,
        &Vec::new(),
        b"abc",
        1000,
    );
    let expected = "OAuth oauth_consumer_key=\"ck\", oauth_nonce=\"abc\", \
        oauth_signature=\"r12aLLt3Fl51ev6IKvqUlBQCqeE%3D\", \
        oauth_signature_method=\"HMAC-SHA1\", oauth_timestamp=\"1000\", \
        oauth_version=\"1.0\"";
    assert_eq!(header, expected.as_bytes().to_vec());
}

#[test]
fn known_access_header_with_token_and_verifier() {
    let token = Credential { key: b"RT".to_vec(), secret: b"RS".to_vec() };
    let extra = vec![(b"oauth_verifier".to_vec(), b"V123".to_vec())];
    let header = sign_with(
        b"GET",
        b"http://example.com/access",
        &Credential { key: b"CK".to_vec(), secret: b"CS".to_vec() },
        Some(&token),
        &extra,
        b"NONCE0",
        1234567890,
    );
    let expected = "OAuth oauth_consumer_key=\"CK\", oauth_nonce=\"NONCE0\", \
        oauth_signature=\"HKSCWcF2VaOt%2BIbZK5lDnW0DKOI%3D\", \
        oauth_signature_method=\"HMAC-SHA1\", oauth_timestamp=\"1234567890\", \
        oauth_token=\"RT\", oauth_verifier=\"V123\", oauth_version=\"1.0\"";
    assert_eq!(header, expected.as_bytes().to_vec());
}

#[test]
fn same_nonce_and_timestamp_give_identical_headers() {
    let extra = vec![(b"x".to_vec(), b"1".to_vec()), (b"a".to_vec(), b"2".to_vec())];
    let h1 = sign_with(b"GET", b"https://api.example/a", &consumer(), None, &extra, b"n0", 42);
    let h2 = sign_with(b"GET", b"https://api.example/a", &consumer(), None, &extra, b"n0", 42);
    assert_eq!(h1, h2);
}

#[test]
fn parameter_order_does_not_matter() {
    let extra1 = vec![
        (b"zeta".to_vec(), b"1".to_vec()),
        (b"alpha".to_vec(), b"2".to_vec()),
        (b"mid".to_vec(), b"3".to_vec()),
    ];
    let extra2 = vec![
        (b"mid".to_vec(), b"3".to_vec()),
        (b"zeta".to_vec(), b"1".to_vec()),
        (b"alpha".to_vec(), b"2".to_vec()),
    ];
    let h1 = sign_with(b"GET", b"https://api.example/a?q=1", &consumer(), None, &extra1, b"n", 7);
    let h2 = sign_with(b"GET", b"https://api.example/a?q=1", &consumer(), None, &extra2, b"n", 7);
    assert_eq!(h1, h2);
}

#[test]
fn own_randomness_gives_fresh_nonces() {
    let h1 = sign(b"GET", b"https://api.example/a", &consumer(), None, &Vec::new());
    let h2 = sign(b"GET", b"https://api.example/a", &consumer(), None, &Vec::new());
    // the header embeds the nonce, so a fresh nonce makes a fresh header
    assert_ne!(h1, h2);
    let text = String::from_utf8(h1).unwrap();
    let nonce = text
        .split("oauth_nonce=\"")
        .nth(1)
        .and_then(|rest| rest.split('\"').next())
        .unwrap();
    assert_eq!(nonce.len(), 32);
    assert!(nonce.bytes().all(|b| b.is_ascii_alphanumeric()));
}
