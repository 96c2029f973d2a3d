//! The credential store: at most one consumer credential and at most
//! one access credential, with overwrite-safety rules.
//!
//! The store is a value; each mutating operation is one atomic
//! transition, so no caller ever observes a partial state. Writing a
//! different consumer clears the access credential with it: an access
//! credential never outlives the consumer it was issued under. The
//! surrounding application keeps a store value in step with its durable
//! rows and asks the user for confirmation where an operation requires
//! one.
use vstd::prelude::*;
use crate::Credential;
use crate::bytes::bytes_eq;

verus! {

/// What the store holds: each slot is empty or holds one key/secret
/// pair.
pub struct StoreState {
    pub consumer: Option<(Seq<u8>, Seq<u8>)>,
    pub access: Option<(Seq<u8>, Seq<u8>)>,
}

/// The store: one optional consumer credential, one optional access
/// credential.
pub struct CredentialStore {
    pub consumer: Option<Credential>,
    pub access: Option<Credential>,
}

/// The view of one optional credential.
pub open spec fn slot_view(c: Option<Credential>) -> Option<(Seq<u8>, Seq<u8>)> {
    match c {
        Some(cr) => Some((cr.key@, cr.secret@)),
        None => None,
    }
}

impl View for CredentialStore {
    type V = StoreState;

    open spec fn view(&self) -> StoreState {
        StoreState { consumer: slot_view(self.consumer), access: slot_view(self.access) }
    }
}

/// What a write attempt did.
#[derive(Debug, PartialEq, Eq, Structural)]
pub enum SetOutcome {
    /// The slot was empty: the credential was inserted.
    Inserted,
    /// The identical credential was already stored: nothing changed.
    Unchanged,
    /// A different credential was stored and the caller had confirmed:
    /// it was replaced.
    Replaced,
    /// A different credential is stored and the caller had not
    /// confirmed: nothing changed, confirmation is required first.
    ConfirmationRequired,
}

/// The transition of `set_consumer`: insert into an empty slot; leave
/// an identical credential alone; replace a different one only when
/// confirmed, clearing the access slot with it.
pub open spec fn set_consumer_spec(pre: StoreState, k: Seq<u8>, s: Seq<u8>, confirmed: bool) -> (
    StoreState,
    SetOutcome,
) {
    match pre.consumer {
        None => (StoreState { consumer: Some((k, s)), access: pre.access }, SetOutcome::Inserted),
        Some(old) => {
            if old == (k, s) {
                (pre, SetOutcome::Unchanged)
            } else if confirmed {
                (StoreState { consumer: Some((k, s)), access: None }, SetOutcome::Replaced)
            } else {
                (pre, SetOutcome::ConfirmationRequired)
            }
        },
    }
}

/// The transition of `set_access`: insert into an empty slot; overwrite
/// an existing credential only when confirmed.
pub open spec fn set_access_spec(pre: StoreState, k: Seq<u8>, s: Seq<u8>, confirmed: bool) -> (
    StoreState,
    SetOutcome,
) {
    match pre.access {
        None => (StoreState { consumer: pre.consumer, access: Some((k, s)) }, SetOutcome::Inserted),
        Some(_) => {
            if confirmed {
                (StoreState { consumer: pre.consumer, access: Some((k, s)) }, SetOutcome::Replaced)
            } else {
                (pre, SetOutcome::ConfirmationRequired)
            }
        },
    }
}

impl CredentialStore {
    /// A store with both slots empty.
    pub fn new() -> (r: CredentialStore)
        ensures
            r@.consumer is None,
            r@.access is None,
    {
        CredentialStore { consumer: None, access: None }
    }

    /// Whether a consumer credential is stored.
    pub fn has_consumer(&self) -> (r: bool)
        ensures
            r == (self@.consumer is Some),
    {
        match self.consumer {
            Some(_) => true,
            None => false,
        }
    }

    /// Whether an access credential is stored.
    pub fn has_access(&self) -> (r: bool)
        ensures
            r == (self@.access is Some),
    {
        match self.access {
            Some(_) => true,
            None => false,
        }
    }

    /// The stored consumer credential, if any.
    pub fn get_consumer(&self) -> (r: Option<Credential>)
        ensures
            slot_view(r) == self@.consumer,
    {
        match &self.consumer {
            Some(c) => Some(c.duplicate()),
            None => None,
        }
    }

    /// The stored access credential, if any.
    pub fn get_access(&self) -> (r: Option<Credential>)
        ensures
            slot_view(r) == self@.access,
    {
        match &self.access {
            Some(c) => Some(c.duplicate()),
            None => None,
        }
    }

    /// Store the consumer credential. `confirmed` says that the user
    /// has agreed to overwrite a different existing credential; without
    /// it a differing store is left untouched. Replacing the consumer
    /// clears the access credential in the same step.
    pub fn set_consumer(&mut self, key: &[u8], secret: &[u8], confirmed: bool) -> (r: SetOutcome)
        ensures
            (final (self)@, r) == set_consumer_spec(old(self)@, key@, secret@, confirmed),
    {
        let same = match &self.consumer {
            Some(c) => bytes_eq(c.key.as_slice(), key) && bytes_eq(c.secret.as_slice(), secret),
            None => false,
        };
        match &self.consumer {
            None => {
                self.consumer = Some(
                    Credential {
                        key: vstd::slice::slice_to_vec(key),
                        secret: vstd::slice::slice_to_vec(secret),
                    },
                );
                SetOutcome::Inserted
            },
            Some(_) => {
                if same {
                    SetOutcome::Unchanged
                } else if confirmed {
                    self.access = None;
                    self.consumer = Some(
                        Credential {
                            key: vstd::slice::slice_to_vec(key),
                            secret: vstd::slice::slice_to_vec(secret),
                        },
                    );
                    SetOutcome::Replaced
                } else {
                    SetOutcome::ConfirmationRequired
                }
            },
        }
    }

    /// Store the access credential. `confirmed` says that the user has
    /// agreed to overwrite an existing credential; without it an
    /// occupied slot is left untouched.
    pub fn set_access(&mut self, key: &[u8], secret: &[u8], confirmed: bool) -> (r: SetOutcome)
        ensures
            (final (self)@, r) == set_access_spec(old(self)@, key@, secret@, confirmed),
    {
        match &self.access {
            None => {
                self.access = Some(
                    Credential {
                        key: vstd::slice::slice_to_vec(key),
                        secret: vstd::slice::slice_to_vec(secret),
                    },
                );
                SetOutcome::Inserted
            },
            Some(_) => {
                if confirmed {
                    self.access = Some(
                        Credential {
                            key: vstd::slice::slice_to_vec(key),
                            secret: vstd::slice::slice_to_vec(secret),
                        },
                    );
                    SetOutcome::Replaced
                } else {
                    SetOutcome::ConfirmationRequired
                }
            },
        }
    }

    /// Clear the access slot; the consumer slot is untouched.
    pub fn clear_access(&mut self)
        ensures
            final (self)@.access is None,
            final (self)@.consumer == old(self)@.consumer,
    {
        self.access = None;
    }
}

/// Storing a consumer credential in an empty store leaves exactly that
/// credential stored and the access slot empty.
pub proof fn lemma_set_consumer_on_empty(pre: StoreState, k: Seq<u8>, s: Seq<u8>, confirmed: bool)
    requires
        pre.consumer is None,
        pre.access is None,
    ensures
        set_consumer_spec(pre, k, s, confirmed).0.consumer == Some((k, s)),
        set_consumer_spec(pre, k, s, confirmed).0.access is None,
        set_consumer_spec(pre, k, s, confirmed).1 == SetOutcome::Inserted,
{
}

/// Storing a consumer credential that differs from the stored one, with
/// confirmation, leaves no access credential behind, whatever the store
/// held before.
pub proof fn lemma_set_consumer_clears_access(pre: StoreState, k: Seq<u8>, s: Seq<u8>)
    requires
        pre.consumer is Some,
        pre.consumer != Some((k, s)),
    ensures
        set_consumer_spec(pre, k, s, true).0.access is None,
        set_consumer_spec(pre, k, s, true).0.consumer == Some((k, s)),
        set_consumer_spec(pre, k, s, true).1 == SetOutcome::Replaced,
{
}

/// Storing the consumer credential already stored changes nothing, the
/// access slot included, and needs no confirmation.
pub proof fn lemma_set_consumer_idempotent(pre: StoreState, k: Seq<u8>, s: Seq<u8>, confirmed: bool)
    requires
        pre.consumer == Some((k, s)),
    ensures
        set_consumer_spec(pre, k, s, confirmed).0 == pre,
        set_consumer_spec(pre, k, s, confirmed).1 == SetOutcome::Unchanged,
{
}

} // verus!
