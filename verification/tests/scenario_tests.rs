//! The whole exchange run against scripted endpoint responses.
use rustblr::flow::{
    accept_verifier, access_token_request, authorize_url, on_access_token_response,
    on_request_token_response, request_token_request,
};
use rustblr::store::{CredentialStore, SetOutcome};

#[test]
fn full_authorization_flow_stores_the_access_token() {
    let mut store = CredentialStore::new();
    store.set_consumer(b"CK", b"CS", false);
    let consumer = store.get_consumer().unwrap();

    // the request-token call is signed with the consumer alone
    let header = request_token_request(&consumer, b"https://stub.example/request_token");
    assert!(header.starts_with(b"OAuth "));

    // the stub endpoint answers with the request token
    let request = on_request_token_response(200, b"oauth_token=RT&oauth_token_secret=RS").unwrap();
    assert_eq!(request.key, b"RT".to_vec());
    assert_eq!(request.secret, b"RS".to_vec());

    // the user visits the authorization URL and pastes the verifier
    let url = authorize_url(b"https://stub.example/authorize", &request.key);
    assert_eq!(url, b"https://stub.example/authorize?oauth_token=RT".to_vec());
    let verifier = accept_verifier(b"V123\n").unwrap();
    assert_eq!(verifier, b"V123".to_vec());

    // the access-token call carries the request token and the verifier
    let header = access_token_request(
        &consumer,
        &request,
        &verifier,
        b"https://stub.example/access_token",
    );
    assert!(header.starts_with(b"OAuth "));
    let access = on_access_token_response(200, b"oauth_token=AT&oauth_token_secret=AS").unwrap();

    // only now does anything reach the store
    assert_eq!(store.set_access(&access.key, &access.secret, true), SetOutcome::Inserted);
    let stored = store.get_access().unwrap();
    assert_eq!(stored.key, b"AT".to_vec());
    assert_eq!(stored.secret, b"AS".to_vec());
}

#[test]
fn failed_exchange_reaches_the_store_with_nothing() {
    let mut store = CredentialStore::new();
    store.set_consumer(b"CK", b"CS", false);
    // the request-token response lacks the secret: the flow stops here
    let r = on_request_token_response(200, b"oauth_token=RT");
    assert!(r.is_err());
    assert!(!store.has_access());
}
