use presence::registry::{bytes_eq, clone_bytes, Registry, RegistrationError};

#[test]
fn fresh_registry_has_no_records() {
    let reg = Registry::new();
    assert!(reg.lookup(1).is_none());
}

#[test]
fn register_then_lookup() {
    let mut reg = Registry::new();
    assert_eq!(reg.try_register(1, b"alice".to_vec()), Ok(()));
    let rec = reg.lookup(1).expect("the record must be present");
    assert_eq!(rec.identity, 1);
    assert_eq!(rec.nickname, b"alice".to_vec());
}

#[test]
fn second_registration_same_identity_rejected() {
    let mut reg = Registry::new();
    assert_eq!(reg.try_register(1, b"alice".to_vec()), Ok(()));
    assert_eq!(
        reg.try_register(1, b"bob".to_vec()),
        Err(RegistrationError::AlreadyRegistered)
    );
    // the original nickname is unchanged
    let rec = reg.lookup(1).expect("the record must still be present");
    assert_eq!(rec.nickname, b"alice".to_vec());
}

#[test]
fn duplicate_nickname_rejected() {
    let mut reg = Registry::new();
    assert_eq!(reg.try_register(1, b"alice".to_vec()), Ok(()));
    assert_eq!(
        reg.try_register(2, b"alice".to_vec()),
        Err(RegistrationError::NicknameTaken)
    );
    assert!(reg.lookup(2).is_none());
}

#[test]
fn nickname_comparison_is_case_sensitive() {
    let mut reg = Registry::new();
    assert_eq!(reg.try_register(1, b"alice".to_vec()), Ok(()));
    assert_eq!(reg.try_register(2, b"Alice".to_vec()), Ok(()));
}

#[test]
fn distinct_identities_and_nicknames_coexist() {
    let mut reg = Registry::new();
    assert_eq!(reg.try_register(1, b"alice".to_vec()), Ok(()));
    assert_eq!(reg.try_register(2, b"bob".to_vec()), Ok(()));
    assert_eq!(reg.lookup(1).unwrap().nickname, b"alice".to_vec());
    assert_eq!(reg.lookup(2).unwrap().nickname, b"bob".to_vec());
}

#[test]
fn remove_returns_the_record_once() {
    let mut reg = Registry::new();
    assert_eq!(reg.try_register(1, b"alice".to_vec()), Ok(()));
    let rec = reg.remove(1).expect("the record must be removed");
    assert_eq!(rec.identity, 1);
    assert_eq!(rec.nickname, b"alice".to_vec());
    assert!(reg.remove(1).is_none());
    assert!(reg.lookup(1).is_none());
}

#[test]
fn removed_nickname_is_free_again() {
    let mut reg = Registry::new();
    assert_eq!(reg.try_register(1, b"alice".to_vec()), Ok(()));
    reg.remove(1);
    assert_eq!(reg.try_register(2, b"alice".to_vec()), Ok(()));
}

#[test]
fn byte_helpers() {
    assert!(bytes_eq(b"alice", b"alice"));
    assert!(!bytes_eq(b"alice", b"alicf"));
    assert!(!bytes_eq(b"alice", b"alic"));
    assert_eq!(clone_bytes(b"alice"), b"alice".to_vec());
}
