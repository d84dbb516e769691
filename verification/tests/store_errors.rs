use envgg::store::{get_secret_from_keyring, list_secrets, StoreError};

fn set_mock_store() {
    keyring_core::set_default_store(keyring_core::mock::Store::new().unwrap());
}

fn platform_error(text: &str) -> Box<dyn std::error::Error + Send + Sync> {
    Box::<dyn std::error::Error + Send + Sync>::from(text)
}

// The mock store's credentials carry no attributes at all, so neither a
// `username` nor an `account` attribute can be probed: listing must fail
// with a malformed entry.
#[test]
fn listing_entries_without_label_attributes_is_malformed() {
    set_mock_store();
    let entry = keyring_core::Entry::new("envgg", "SOME_KEY").unwrap();
    entry.set_password("v").unwrap();
    assert!(matches!(list_secrets(), Err(StoreError::MalformedEntry)));
}

#[test]
fn denied_storage_access_maps_to_access_denied() {
    set_mock_store();
    let entry = keyring_core::Entry::new("envgg", "K1").unwrap();
    entry.set_password("v").unwrap();
    let cred: &keyring_core::mock::Cred = entry.as_any().downcast_ref().unwrap();
    cred.set_error(keyring_core::Error::NoStorageAccess(platform_error("locked")));
    assert!(matches!(get_secret_from_keyring("K1"), Err(StoreError::AccessDenied)));
    assert_eq!(get_secret_from_keyring("K1").unwrap(), "v");
}

#[test]
fn platform_failure_maps_to_unavailable() {
    set_mock_store();
    let entry = keyring_core::Entry::new("envgg", "K2").unwrap();
    entry.set_password("v").unwrap();
    let cred: &keyring_core::mock::Cred = entry.as_any().downcast_ref().unwrap();
    cred.set_error(keyring_core::Error::PlatformFailure(platform_error("broken")));
    assert!(matches!(get_secret_from_keyring("K2"), Err(StoreError::Unavailable)));
}

#[test]
fn bad_encoding_maps_to_malformed_entry() {
    set_mock_store();
    let entry = keyring_core::Entry::new("envgg", "K3").unwrap();
    entry.set_password("v").unwrap();
    let cred: &keyring_core::mock::Cred = entry.as_any().downcast_ref().unwrap();
    cred.set_error(keyring_core::Error::BadEncoding(vec![0x80]));
    assert!(matches!(get_secret_from_keyring("K3"), Err(StoreError::MalformedEntry)));
}

#[test]
fn missing_default_store_is_unavailable() {
    keyring_core::unset_default_store();
    assert!(matches!(get_secret_from_keyring("ANY"), Err(StoreError::Unavailable)));
}
