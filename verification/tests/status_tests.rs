use rustblr::AuthError;
use rustblr::status::{begin_status_check, check_status_response, classify_with_name, StatusOutcome};
use rustblr::store::CredentialStore;

#[test]
fn ok_response_with_username_is_authorized() {
    let body = br#"{"response":{"user":{"name":"alice"}}}"#;
    let r = check_status_response(200, body).unwrap();
    match r {
        StatusOutcome::Authorized(name) => assert_eq!(name, b"alice".to_vec()),
        _ => panic!("expected an authorized outcome"),
    }
}

#[test]
fn unauthorized_status_is_reported() {
    let r = check_status_response(401, b"").unwrap();
    assert!(matches!(r, StatusOutcome::Unauthorized));
}

#[test]
fn other_statuses_are_unexpected() {
    let r = check_status_response(500, b"").unwrap();
    assert!(matches!(r, StatusOutcome::Unexpected(500)));
}

#[test]
fn ok_response_without_username_is_a_protocol_error() {
    let r = check_status_response(200, br#"{"response":{}}"#);
    assert!(matches!(r, Err(AuthError::ProtocolError)));
    let r = check_status_response(200, b"not json at all");
    assert!(matches!(r, Err(AuthError::ProtocolError)));
}

#[test]
fn classify_with_name_covers_every_case() {
    let r = classify_with_name(200, Some(b"bob".to_vec())).unwrap();
    assert!(matches!(r, StatusOutcome::Authorized(ref n) if n == &b"bob".to_vec()));
    assert!(matches!(classify_with_name(200, None), Err(AuthError::ProtocolError)));
    assert!(matches!(classify_with_name(401, None).unwrap(), StatusOutcome::Unauthorized));
    assert!(matches!(classify_with_name(404, None).unwrap(), StatusOutcome::Unexpected(404)));
}

#[test]
fn status_check_needs_both_credentials() {
    let mut store = CredentialStore::new();
    let r = begin_status_check(&store, b"https://api.example/user/info");
    assert!(matches!(r, Err(AuthError::MissingCredentials)));
    store.set_consumer(b"ck", b"cs", false);
    let r = begin_status_check(&store, b"https://api.example/user/info");
    assert!(matches!(r, Err(AuthError::MissingCredentials)));
    store.set_access(b"ak", b"as", false);
    let r = begin_status_check(&store, b"https://api.example/user/info");
    assert!(r.is_ok());
    let header = r.unwrap();
    assert!(header.starts_with(b"OAuth "));
}
