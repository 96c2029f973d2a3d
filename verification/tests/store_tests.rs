use rustblr::store::{CredentialStore, SetOutcome};

#[test]
fn set_consumer_on_empty_store() {
    let mut store = CredentialStore::new();
    assert!(!store.has_consumer());
    let outcome = store.set_consumer(b"k", b"s", false);
    assert_eq!(outcome, SetOutcome::Inserted);
    let c = store.get_consumer().unwrap();
    assert_eq!(c.key, b"k".to_vec());
    assert_eq!(c.secret, b"s".to_vec());
    assert!(!store.has_access());
}

#[test]
fn replacing_consumer_clears_access() {
    let mut store = CredentialStore::new();
    store.set_consumer(b"k1", b"s1", false);
    store.set_access(b"ak", b"as", false);
    assert!(store.has_access());
    let outcome = store.set_consumer(b"k2", b"s2", true);
    assert_eq!(outcome, SetOutcome::Replaced);
    assert!(!store.has_access());
    let c = store.get_consumer().unwrap();
    assert_eq!(c.key, b"k2".to_vec());
    assert_eq!(c.secret, b"s2".to_vec());
}

#[test]
fn same_consumer_is_a_no_op_and_keeps_access() {
    let mut store = CredentialStore::new();
    store.set_consumer(b"k", b"s", false);
    store.set_access(b"ak", b"as", false);
    let outcome = store.set_consumer(b"k", b"s", false);
    assert_eq!(outcome, SetOutcome::Unchanged);
    assert!(store.has_access());
    let a = store.get_access().unwrap();
    assert_eq!(a.key, b"ak".to_vec());
    assert_eq!(a.secret, b"as".to_vec());
}

#[test]
fn differing_consumer_without_confirmation_changes_nothing() {
    let mut store = CredentialStore::new();
    store.set_consumer(b"k1", b"s1", false);
    store.set_access(b"ak", b"as", false);
    let outcome = store.set_consumer(b"k2", b"s2", false);
    assert_eq!(outcome, SetOutcome::ConfirmationRequired);
    let c = store.get_consumer().unwrap();
    assert_eq!(c.key, b"k1".to_vec());
    assert!(store.has_access());
}

#[test]
fn access_overwrite_needs_confirmation() {
    let mut store = CredentialStore::new();
    store.set_consumer(b"k", b"s", false);
    assert_eq!(store.set_access(b"a1", b"s1", false), SetOutcome::Inserted);
    assert_eq!(store.set_access(b"a2", b"s2", false), SetOutcome::ConfirmationRequired);
    assert_eq!(store.get_access().unwrap().key, b"a1".to_vec());
    assert_eq!(store.set_access(b"a2", b"s2", true), SetOutcome::Replaced);
    assert_eq!(store.get_access().unwrap().key, b"a2".to_vec());
}

#[test]
fn clear_access_leaves_consumer() {
    let mut store = CredentialStore::new();
    store.set_consumer(b"k", b"s", false);
    store.set_access(b"ak", b"as", false);
    store.clear_access();
    assert!(!store.has_access());
    assert!(store.has_consumer());
}
