use std::collections::HashMap;
use std::sync::{Arc, Mutex};

use envgg::store::{
    add_secret_to_keyring, delete_secret_from_keyring, get_secret_from_keyring, list_secrets,
    StoreError,
};

/// An in-memory credential store for these tests. Unlike the mock store that
/// ships with keyring-core, its credentials expose a `username` attribute, as
/// the platform stores do, so the label listing can be exercised end to end.
struct TestStoreInner {
    secrets: Mutex<HashMap<(String, String), String>>,
}

struct TestCred {
    service: String,
    user: String,
    store: Arc<TestStoreInner>,
}

impl keyring_core::api::CredentialApi for TestCred {
    fn set_secret(&self, secret: &[u8]) -> keyring_core::Result<()> {
        let mut map = self.store.secrets.lock().unwrap();
        map.insert(
            (self.service.clone(), self.user.clone()),
            String::from_utf8(secret.to_vec()).unwrap(),
        );
        Ok(())
    }

    fn get_secret(&self) -> keyring_core::Result<Vec<u8>> {
        let map = self.store.secrets.lock().unwrap();
        match map.get(&(self.service.clone(), self.user.clone())) {
            Some(v) => Ok(v.as_bytes().to_vec()),
            None => Err(keyring_core::Error::NoEntry),
        }
    }

    fn get_attributes(&self) -> keyring_core::Result<HashMap<String, String>> {
        self.get_secret()?;
        Ok(HashMap::from([("username".to_string(), self.user.clone())]))
    }

    fn delete_credential(&self) -> keyring_core::Result<()> {
        let mut map = self.store.secrets.lock().unwrap();
        match map.remove(&(self.service.clone(), self.user.clone())) {
            Some(_) => Ok(()),
            None => Err(keyring_core::Error::NoEntry),
        }
    }

    fn get_credential(&self) -> keyring_core::Result<Option<Arc<keyring_core::Credential>>> {
        Ok(None)
    }

    fn get_specifiers(&self) -> Option<(String, String)> {
        Some((self.service.clone(), self.user.clone()))
    }

    fn as_any(&self) -> &dyn std::any::Any {
        self
    }
}

impl std::fmt::Debug for TestCred {
    fn fmt(&self, f: &mut std::fmt::Formatter<'_>) -> std::fmt::Result {
        f.debug_struct("TestCred").finish()
    }
}

struct TestStore {
    inner: Arc<TestStoreInner>,
}

impl keyring_core::api::CredentialStoreApi for TestStore {
    fn vendor(&self) -> String {
        "test store".to_string()
    }

    fn id(&self) -> String {
        "test store".to_string()
    }

    fn build(
        &self,
        service: &str,
        user: &str,
        _modifiers: Option<&HashMap<&str, &str>>,
    ) -> keyring_core::Result<keyring_core::Entry> {
        Ok(keyring_core::Entry::new_with_credential(Arc::new(TestCred {
            service: service.to_string(),
            user: user.to_string(),
            store: self.inner.clone(),
        })))
    }

    fn search(
        &self,
        spec: &HashMap<&str, &str>,
    ) -> keyring_core::Result<Vec<keyring_core::Entry>> {
        let svc = spec.get("service").copied().unwrap_or("");
        let map = self.inner.secrets.lock().unwrap();
        let mut found: Vec<keyring_core::Entry> = Vec::new();
        for (k, _) in map.iter() {
            if k.0 == svc {
                found.push(keyring_core::Entry::new_with_credential(Arc::new(TestCred {
                    service: k.0.clone(),
                    user: k.1.clone(),
                    store: self.inner.clone(),
                })));
            }
        }
        Ok(found)
    }

    fn as_any(&self) -> &dyn std::any::Any {
        self
    }
}

fn set_test_store() {
    keyring_core::set_default_store(Arc::new(TestStore {
        inner: Arc::new(TestStoreInner { secrets: Mutex::new(HashMap::new()) }),
    }));
}

#[test]
fn add_list_delete_round_trip() {
    set_test_store();
    add_secret_to_keyring("API_KEY", "v1").unwrap();
    let labels = list_secrets().unwrap();
    assert!(labels.contains(&"API_KEY".to_string()));
    delete_secret_from_keyring("API_KEY").unwrap();
    let labels = list_secrets().unwrap();
    assert!(!labels.contains(&"API_KEY".to_string()));
    let second = delete_secret_from_keyring("API_KEY");
    assert!(matches!(second, Err(StoreError::NotFound)));
}

#[test]
fn add_rejects_invalid_names_before_touching_the_store() {
    set_test_store();
    assert!(matches!(add_secret_to_keyring("foo", "v"), Err(StoreError::InvalidKeyFormat)));
    assert!(matches!(add_secret_to_keyring("2FOO", "v"), Err(StoreError::InvalidKeyFormat)));
    assert!(matches!(add_secret_to_keyring("", "v"), Err(StoreError::InvalidKeyFormat)));
    assert!(matches!(add_secret_to_keyring("FOO-BAR", "v"), Err(StoreError::InvalidKeyFormat)));
    let labels = list_secrets().unwrap();
    assert!(!labels.contains(&"foo".to_string()));
    assert!(!labels.contains(&"2FOO".to_string()));
    assert!(!labels.contains(&"".to_string()));
    assert!(!labels.contains(&"FOO-BAR".to_string()));
}

#[test]
fn add_overwrites_and_get_returns_value() {
    set_test_store();
    add_secret_to_keyring("TOKEN", "first").unwrap();
    add_secret_to_keyring("TOKEN", "second").unwrap();
    assert_eq!(get_secret_from_keyring("TOKEN").unwrap(), "second");
}

#[test]
fn get_missing_label_is_not_found() {
    set_test_store();
    assert!(matches!(get_secret_from_keyring("NOWHERE"), Err(StoreError::NotFound)));
}

#[test]
fn list_is_sorted_by_literal_value() {
    set_test_store();
    add_secret_to_keyring("ZULU", "1").unwrap();
    add_secret_to_keyring("ALPHA", "2").unwrap();
    add_secret_to_keyring("M1", "3").unwrap();
    add_secret_to_keyring("MA", "4").unwrap();
    let labels = list_secrets().unwrap();
    assert_eq!(
        labels,
        vec!["ALPHA".to_string(), "M1".to_string(), "MA".to_string(), "ZULU".to_string()],
    );
}

#[test]
fn resolve_file_against_store() {
    set_test_store();
    add_secret_to_keyring("SECRET_B", "sb").unwrap();
    add_secret_to_keyring("C", "vc").unwrap();
    let lines: Vec<String> = vec![
        "#comment".to_string(),
        "A=1".to_string(),
        "B=$SECRET_B".to_string(),
        "C".to_string(),
    ];
    let (env, warnings) = envgg::resolve::resolve_env_lines(&lines);
    assert_eq!(
        env,
        vec![
            ("A".to_string(), "1".to_string()),
            ("B".to_string(), "sb".to_string()),
            ("C".to_string(), "vc".to_string()),
        ],
    );
    assert!(warnings.is_empty());
}

#[test]
fn resolve_survives_a_missing_secret() {
    set_test_store();
    add_secret_to_keyring("PRESENT", "here").unwrap();
    let lines: Vec<String> = vec![
        "A=$ABSENT".to_string(),
        "B=$PRESENT".to_string(),
        "C=literal".to_string(),
    ];
    let (env, warnings) = envgg::resolve::resolve_env_lines(&lines);
    assert_eq!(
        env,
        vec![("B".to_string(), "here".to_string()), ("C".to_string(), "literal".to_string())],
    );
    assert_eq!(warnings.len(), 1);
    assert_eq!(warnings[0].key, "A");
    assert_eq!(warnings[0].keyring_key, "ABSENT");
}

#[test]
fn empty_alias_target_misses_without_crashing() {
    set_test_store();
    let lines: Vec<String> = vec!["KEY=$".to_string()];
    let (env, warnings) = envgg::resolve::resolve_env_lines(&lines);
    assert!(env.is_empty());
    assert_eq!(warnings.len(), 1);
    assert_eq!(warnings[0].key, "KEY");
    assert_eq!(warnings[0].keyring_key, "");
}
