//! An OAuth 1.0a client core: percent-encoding, signature construction,
//! the three-legged token-exchange steps, credential storage with
//! overwrite-safety rules, and classification of the status probe.
//!
//! Everything here is pure computation over byte strings; the HTTP
//! transport, the interactive prompts, and the on-disk persistence are
//! capabilities supplied by the surrounding application.
use vstd::prelude::*;

pub mod bytes;
pub mod encoding;
pub mod params;
pub mod query;
pub mod signer;
pub mod flow;
pub mod status;
pub mod store;

verus! {

/// A key/secret pair: the consumer credential, a request token, or an
/// access token, depending on where it is used.
pub struct Credential {
    pub key: Vec<u8>,
    pub secret: Vec<u8>,
}

impl View for Credential {
    type V = (Seq<u8>, Seq<u8>);

    open spec fn view(&self) -> (Seq<u8>, Seq<u8>) {
        (self.key@, self.secret@)
    }
}

impl Credential {
    /// An independent copy holding the same key and secret.
    pub fn duplicate(&self) -> (r: Credential)
        ensures
            r@ == self@,
    {
        Credential {
            key: vstd::slice::slice_to_vec(self.key.as_slice()),
            secret: vstd::slice::slice_to_vec(self.secret.as_slice()),
        }
    }
}

/// The error taxonomy: every operation of the library fails with exactly
/// one of these, and each contract says on which inputs it does.
#[derive(Debug)]
pub enum AuthError {
    /// The HTTP call failed or returned a status outside the 2xx range.
    TransportError,
    /// The remote answer was malformed or lacked a required field.
    ProtocolError,
    /// The interactive input was missing or empty.
    InputError,
    /// The persistence layer failed; nothing was written.
    StorageError,
    /// A stored credential that the operation needs is absent.
    MissingCredentials,
}

} // verus!
