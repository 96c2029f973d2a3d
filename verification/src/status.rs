//! The status probe: sign a profile fetch with the stored credentials
//! and classify its response.
//!
//! Both credentials must be stored before anything is sent; the
//! response is classified by status, and a success body must carry the
//! username at `response.user.name`.
use vstd::prelude::*;
use vstd::string::StringSliceAdditionalSpecFns;
use crate::AuthError;
use crate::signer::{fresh_nonce, header_of, sign_with, unix_timestamp};
use crate::store::CredentialStore;
use crate::params::views;

verus! {

/// What the probe found out.
pub enum StatusOutcome {
    /// The stored credentials work; the username the API reported.
    Authorized(Vec<u8>),
    /// The API answered 401: the credentials are not accepted.
    Unauthorized,
    /// Any other status.
    Unexpected(u16),
}

pub uninterp spec fn json_user_name(body: Seq<u8>) -> Option<Seq<u8>>;

/// Relies on `serde_json::from_slice` and `Value::get`: the string at
/// `response.user.name` of the parsed body, a function of the body
/// text alone, and absent when the body is not JSON or lacks the path.
#[verifier::external_body]
fn extract_user_name(body: &[u8]) -> (r: Option<Vec<u8>>)
    ensures
        match r {
            Some(v) => json_user_name(body@) == Some(v@),
            None => json_user_name(body@) is None,
        },
{
    let data: serde_json::Value = match serde_json::from_slice(body) {
        Ok(v) => v,
        Err(_) => {
            return None;
        },
    };
    data.get("response")
        .and_then(|v| v.get("user"))
        .and_then(|v| v.get("name"))
        .and_then(|v| v.as_str())
        .map(|s| s.as_bytes().to_vec())
}

/// Sign the profile-fetch GET with a fresh nonce and the current
/// time, or report that a credential is missing: nothing may be sent
/// before both credentials are stored.
pub fn begin_status_check(store: &CredentialStore, url: &[u8]) -> (r: Result<Vec<u8>, AuthError>)
    ensures
        match r {
            Ok(h) => store@.consumer is Some && store@.access is Some && exists|
                nonce: Seq<u8>,
                ts: u64,
            |
                nonce.len() == 32 && h@ == header_of(
                    "GET".spec_bytes(),
                    url@,
                    store@.consumer->Some_0.0,
                    store@.consumer->Some_0.1,
                    Some(store@.access->Some_0),
                    Seq::empty(),
                    nonce,
                    ts,
                ),
            Err(e) => e == AuthError::MissingCredentials && (store@.consumer is None
                || store@.access is None),
        },
{
    match (&store.consumer, &store.access) {
        (Some(consumer), Some(access)) => {
            let extra: Vec<(Vec<u8>, Vec<u8>)> = Vec::new();
            proof {
                assert(views(extra@) =~= Seq::<(Seq<u8>, Seq<u8>)>::empty());
            }
            let nonce = fresh_nonce();
            let ts = unix_timestamp();
            let h = sign_with(
                "GET".as_bytes(),
                url,
                consumer,
                Some(access),
                &extra,
                nonce.as_slice(),
                ts,
            );
            proof {
                assert(nonce@.len() == 32 && h@ == header_of(
                    "GET".spec_bytes(),
                    url@,
                    store@.consumer->Some_0.0,
                    store@.consumer->Some_0.1,
                    Some(store@.access->Some_0),
                    Seq::<(Seq<u8>, Seq<u8>)>::empty(),
                    nonce@,
                    ts,
                ));
            }
            Ok(h)
        },
        _ => Err(AuthError::MissingCredentials),
    }
}

/// Classify a response whose username field has already been looked
/// up: 200 with a name is authorized, 200 without one is a protocol
/// failure, 401 is unauthorized, and anything else is unexpected.
pub fn classify_with_name(status: u16, name: Option<Vec<u8>>) -> (r: Result<
    StatusOutcome,
    AuthError,
>)
    ensures
        status == 200 && name is Some ==> (r matches Ok(StatusOutcome::Authorized(u)) && u@
            == name->Some_0@),
        status == 200 && name is None ==> r == Err::<StatusOutcome, AuthError>(
            AuthError::ProtocolError,
        ),
        status == 401 ==> (r matches Ok(o) && o is Unauthorized),
        status != 200 && status != 401 ==> (r matches Ok(StatusOutcome::Unexpected(c)) && c
            == status),
{
    if status == 200 {
        match name {
            Some(u) => Ok(StatusOutcome::Authorized(u)),
            None => Err(AuthError::ProtocolError),
        }
    } else if status == 401 {
        Ok(StatusOutcome::Unauthorized)
    } else {
        Ok(StatusOutcome::Unexpected(status))
    }
}

/// Classify the profile-fetch response: on 200 the username is read
/// out of the body, and a body without one is a protocol failure.
pub fn check_status_response(status: u16, body: &[u8]) -> (r: Result<StatusOutcome, AuthError>)
    ensures
        status == 200 && json_user_name(body@) is Some ==> (r matches Ok(
            StatusOutcome::Authorized(u),
        ) && Some(u@) == json_user_name(body@)),
        status == 200 && json_user_name(body@) is None ==> r == Err::<StatusOutcome, AuthError>(
            AuthError::ProtocolError,
        ),
        status == 401 ==> (r matches Ok(o) && o is Unauthorized),
        status != 200 && status != 401 ==> (r matches Ok(StatusOutcome::Unexpected(c)) && c
            == status),
{
    if status == 200 {
        let name = extract_user_name(body);
        classify_with_name(status, name)
    } else {
        classify_with_name(status, None)
    }
}

} // verus!

