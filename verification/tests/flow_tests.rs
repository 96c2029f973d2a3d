use rustblr::AuthError;
use rustblr::flow::{
    accept_verifier, authorize_url, on_access_token_response, on_request_token_response,
};
use rustblr::query::split_query;

#[test]
fn request_token_response_parses_both_fields() {
    let r = on_request_token_response(200, b"oauth_token=RT&oauth_token_secret=RS").unwrap();
    assert_eq!(r.key, b"RT".to_vec());
    assert_eq!(r.secret, b"RS".to_vec());
}

#[test]
fn request_token_response_without_secret_is_a_protocol_error() {
    let r = on_request_token_response(200, b"oauth_token=RT");
    assert!(matches!(r, Err(AuthError::ProtocolError)));
}

#[test]
fn request_token_response_without_token_is_a_protocol_error() {
    let r = on_request_token_response(200, b"oauth_token_secret=RS&x=y");
    assert!(matches!(r, Err(AuthError::ProtocolError)));
    let r = on_request_token_response(200, b"");
    assert!(matches!(r, Err(AuthError::ProtocolError)));
}

#[test]
fn non_success_status_is_a_transport_error() {
    let r = on_request_token_response(500, b"oauth_token=RT&oauth_token_secret=RS");
    assert!(matches!(r, Err(AuthError::TransportError)));
    let r = on_access_token_response(302, b"oauth_token=RT&oauth_token_secret=RS");
    assert!(matches!(r, Err(AuthError::TransportError)));
}

#[test]
fn authorize_url_carries_the_encoded_request_key() {
    let url = authorize_url(b"https://www.example.com/oauth/authorize", b"a key");
    assert_eq!(
        url,
        b"https://www.example.com/oauth/authorize?oauth_token=a%20key".to_vec()
    );
}

#[test]
fn verifier_input_is_trimmed() {
    assert_eq!(accept_verifier(b"  V123\r\n").unwrap(), b"V123".to_vec());
    assert_eq!(accept_verifier(b"V123").unwrap(), b"V123".to_vec());
}

#[test]
fn empty_verifier_input_is_an_input_error() {
    assert!(matches!(accept_verifier(b""), Err(AuthError::InputError)));
    assert!(matches!(accept_verifier(b" \t\r\n"), Err(AuthError::InputError)));
}

#[test]
fn split_query_reads_pairs_last_wins_on_lookup() {
    let pairs = split_query(b"a=1&b=2&c");
    assert_eq!(pairs.len(), 3);
    assert_eq!(pairs[0], (b"a".to_vec(), b"1".to_vec()));
    assert_eq!(pairs[1], (b"b".to_vec(), b"2".to_vec()));
    assert_eq!(pairs[2], (b"c".to_vec(), b"".to_vec()));
    let r = on_request_token_response(
        200,
        b"oauth_token=OLD&oauth_token=NEW&oauth_token_secret=S",
    )
    .unwrap();
    assert_eq!(r.key, b"NEW".to_vec());
}
