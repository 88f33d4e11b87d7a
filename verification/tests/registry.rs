use encrypted_notes_backend::devices::{DeviceError, Devices};
use encrypted_notes_backend::identity::Identity;

fn ident(id: u128) -> Identity {
    Identity { id }
}

fn s(text: &str) -> String {
    String::from(text)
}

#[test]
fn register_device_creates_entry() {
    let mut d = Devices::default();
    let i = ident(1);
    assert!(!d.is_caller_registered(i));
    d.register_device(i, s("laptop"), s("pkA"));
    assert!(d.is_caller_registered(i));
    let aliases = d.get_device_aliases(i);
    assert_eq!(aliases.len(), 1);
    assert_eq!(aliases[0], s("laptop"));
}

#[test]
fn register_device_same_alias_is_idempotent() {
    let mut d = Devices::default();
    let i = ident(1);
    d.register_device(i, s("laptop"), s("pkA"));
    d.register_device(i, s("laptop"), s("pkB"));
    let aliases = d.get_device_aliases(i);
    assert_eq!(aliases.len(), 1);
    assert_eq!(aliases[0], s("laptop"));
    // the first public key won: pkA is the one awaiting synchronization
    let unsynced = d.get_unsynced_public_keys(i);
    assert_eq!(unsynced, vec![s("pkA")]);
}

#[test]
fn aliases_of_unknown_identity_are_empty() {
    let d = Devices::default();
    assert!(d.get_device_aliases(ident(9)).is_empty());
}

#[test]
fn delete_device_removes_alias_and_key() {
    let mut d = Devices::default();
    let i = ident(1);
    d.register_device(i, s("laptop"), s("pkA"));
    d.register_device(i, s("phone"), s("pkB"));
    d.register_encrypted_symmetric_key(i, s("pkA"), s("ct1"))
        .unwrap();
    d.delete_device(i, s("laptop"));
    let aliases = d.get_device_aliases(i);
    assert_eq!(aliases, vec![s("phone")]);
    // the key stored under pkA went with the alias
    assert!(!d.is_encrypted_symmetric_key_registered(i));
    assert_eq!(
        d.get_encrypted_symmetric_key(i, &s("pkA")),
        Err(DeviceError::UnknownPublicKey)
    );
}

#[test]
fn delete_device_unknown_identity_is_noop() {
    let mut d = Devices::default();
    d.delete_device(ident(5), s("laptop"));
    assert!(!d.is_caller_registered(ident(5)));
}

#[test]
fn delete_device_unknown_alias_is_noop() {
    let mut d = Devices::default();
    let i = ident(1);
    d.register_device(i, s("laptop"), s("pkA"));
    d.register_device(i, s("phone"), s("pkB"));
    d.delete_device(i, s("tablet"));
    assert_eq!(d.get_device_aliases(i).len(), 2);
}

#[test]
fn get_key_errors() {
    let mut d = Devices::default();
    let i = ident(1);
    assert_eq!(
        d.get_encrypted_symmetric_key(i, &s("pkA")),
        Err(DeviceError::DeviceNotRegistered)
    );
    d.register_device(i, s("laptop"), s("pkA"));
    assert_eq!(
        d.get_encrypted_symmetric_key(i, &s("pkX")),
        Err(DeviceError::UnknownPublicKey)
    );
    assert_eq!(
        d.get_encrypted_symmetric_key(i, &s("pkA")),
        Err(DeviceError::KeyNotSynchronized)
    );
    d.register_encrypted_symmetric_key(i, s("pkA"), s("ct1"))
        .unwrap();
    assert_eq!(d.get_encrypted_symmetric_key(i, &s("pkA")), Ok(s("ct1")));
}

#[test]
fn register_key_requires_known_identity_and_key() {
    let mut d = Devices::default();
    let i = ident(1);
    assert_eq!(
        d.register_encrypted_symmetric_key(i, s("pkA"), s("ct1")),
        Err(DeviceError::DeviceNotRegistered)
    );
    d.register_device(i, s("laptop"), s("pkA"));
    assert_eq!(
        d.register_encrypted_symmetric_key(i, s("pkX"), s("ct1")),
        Err(DeviceError::UnknownPublicKey)
    );
}

#[test]
fn register_key_succeeds_at_most_once() {
    let mut d = Devices::default();
    let i = ident(1);
    d.register_device(i, s("laptop"), s("pkA"));
    d.register_device(i, s("phone"), s("pkB"));
    assert_eq!(
        d.register_encrypted_symmetric_key(i, s("pkA"), s("ct1")),
        Ok(())
    );
    // a second bootstrap fails even with another registered public key
    assert_eq!(
        d.register_encrypted_symmetric_key(i, s("pkB"), s("ct2")),
        Err(DeviceError::AlreadyRegistered)
    );
    assert_eq!(
        d.register_encrypted_symmetric_key(i, s("pkA"), s("ct3")),
        Err(DeviceError::AlreadyRegistered)
    );
    // deleting the device that held the key reopens the bootstrap path
    d.delete_device(i, s("laptop"));
    assert_eq!(
        d.register_encrypted_symmetric_key(i, s("pkB"), s("ct2")),
        Ok(())
    );
}

#[test]
fn unsynced_is_registered_minus_synchronized() {
    let mut d = Devices::default();
    let i = ident(1);
    assert!(d.get_unsynced_public_keys(i).is_empty());
    d.register_device(i, s("laptop"), s("pkA"));
    d.register_device(i, s("phone"), s("pkB"));
    d.register_device(i, s("tablet"), s("pkC"));
    let mut unsynced = d.get_unsynced_public_keys(i);
    unsynced.sort();
    assert_eq!(unsynced, vec![s("pkA"), s("pkB"), s("pkC")]);
    d.register_encrypted_symmetric_key(i, s("pkB"), s("ct1"))
        .unwrap();
    let mut unsynced = d.get_unsynced_public_keys(i);
    unsynced.sort();
    assert_eq!(unsynced, vec![s("pkA"), s("pkC")]);
}

#[test]
fn upload_partial_effect_is_preserved() {
    let mut d = Devices::default();
    let i = ident(1);
    d.register_device(i, s("laptop"), s("pkA"));
    let pairs = vec![(s("pkA"), s("ctA")), (s("pkB"), s("ctB"))];
    assert_eq!(
        d.upload_encrypted_symmetric_keys(i, pairs),
        Err(DeviceError::UnknownPublicKey)
    );
    // pkA's key was applied before the failure and stays applied
    assert_eq!(d.get_encrypted_symmetric_key(i, &s("pkA")), Ok(s("ctA")));
}

#[test]
fn upload_stops_at_first_unknown_key() {
    let mut d = Devices::default();
    let i = ident(1);
    d.register_device(i, s("laptop"), s("pkA"));
    let pairs = vec![
        (s("pkA"), s("ct1")),
        (s("pkX"), s("bad")),
        (s("pkA"), s("ct2")),
    ];
    assert_eq!(
        d.upload_encrypted_symmetric_keys(i, pairs),
        Err(DeviceError::UnknownPublicKey)
    );
    // the pair after the failing one was never applied
    assert_eq!(d.get_encrypted_symmetric_key(i, &s("pkA")), Ok(s("ct1")));
}

#[test]
fn upload_overwrites_existing_keys() {
    let mut d = Devices::default();
    let i = ident(1);
    d.register_device(i, s("laptop"), s("pkA"));
    d.register_encrypted_symmetric_key(i, s("pkA"), s("ct1"))
        .unwrap();
    assert_eq!(
        d.upload_encrypted_symmetric_keys(i, vec![(s("pkA"), s("ct2"))]),
        Ok(())
    );
    assert_eq!(d.get_encrypted_symmetric_key(i, &s("pkA")), Ok(s("ct2")));
}

#[test]
fn upload_unknown_identity_fails() {
    let mut d = Devices::default();
    assert_eq!(
        d.upload_encrypted_symmetric_keys(ident(7), vec![(s("pkA"), s("ct"))]),
        Err(DeviceError::DeviceNotRegistered)
    );
}

#[test]
fn identities_have_disjoint_state() {
    let mut d = Devices::default();
    let a = ident(1);
    let b = ident(2);
    d.register_device(a, s("laptop"), s("pkA"));
    d.register_device(b, s("laptop"), s("pkB"));
    d.register_encrypted_symmetric_key(a, s("pkA"), s("ctA"))
        .unwrap();
    assert!(d.is_encrypted_symmetric_key_registered(a));
    assert!(!d.is_encrypted_symmetric_key_registered(b));
    assert_eq!(
        d.get_encrypted_symmetric_key(b, &s("pkA")),
        Err(DeviceError::UnknownPublicKey)
    );
}

#[test]
fn synchronization_scenario() {
    let mut d = Devices::default();
    let i = ident(1);
    d.register_device(i, s("laptop"), s("pkA"));
    d.register_device(i, s("phone"), s("pkB"));

    let mut unsynced = d.get_unsynced_public_keys(i);
    unsynced.sort();
    assert_eq!(unsynced, vec![s("pkA"), s("pkB")]);

    assert_eq!(
        d.register_encrypted_symmetric_key(i, s("pkA"), s("ct1")),
        Ok(())
    );
    assert_eq!(
        d.register_encrypted_symmetric_key(i, s("pkB"), s("ct2")),
        Err(DeviceError::AlreadyRegistered)
    );
    assert_eq!(
        d.get_encrypted_symmetric_key(i, &s("pkB")),
        Err(DeviceError::KeyNotSynchronized)
    );
    assert_eq!(
        d.upload_encrypted_symmetric_keys(i, vec![(s("pkB"), s("ct1"))]),
        Ok(())
    );
    assert_eq!(d.get_encrypted_symmetric_key(i, &s("pkB")), Ok(s("ct1")));
}

#[test]
fn anonymous_identity_is_reserved() {
    let anon = Identity::anonymous();
    assert!(anon.is_anonymous());
    assert!(!ident(1).is_anonymous());
    assert_eq!(anon, Identity { id: 0 });
}
