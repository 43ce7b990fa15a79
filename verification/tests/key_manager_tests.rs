use ya_ok_core::security::key_manager::{KeyConfig, KeyManager, KeyError};

#[test]
fn test_key_generation() {
    let manager = KeyManager::new("key.config");

    let outcome = manager.get_or_create_db_key(None, "device-under-test").unwrap();
    let key1 = outcome.key_hex;

    assert_eq!(key1.len(), 64);
    assert!(key1.chars().all(|c| c.is_ascii_hexdigit()));
}

#[test]
fn test_key_persistence() {
    let manager = KeyManager::new("key.config");

    let first = manager.get_or_create_db_key(None, "device-under-test").unwrap();
    let key1 = first.key_hex;
    let kept = first.created.unwrap();

    let manager2 = KeyManager::new("key.config");
    let key2 = manager2.get_or_create_db_key(Some(&kept), "device-under-test").unwrap().key_hex;

    assert_eq!(key1, key2);
}

#[test]
fn test_key_uniqueness() {
    let manager1 = KeyManager::new("one/key.config");
    let manager2 = KeyManager::new("two/key.config");

    let first = manager1.get_or_create_db_key(None, "device-under-test").unwrap();
    let second = manager2.get_or_create_db_key(None, "device-under-test").unwrap();

    println!("Key1: {}", first.key_hex);
    println!("Key2: {}", second.key_hex);

    let config1 = first.created.unwrap();
    let config2 = second.created.unwrap();
    assert_ne!(config1.salt, config2.salt);
}

#[test]
fn derived_key_is_pbkdf2_with_hmac_sha256() {
    let one = KeyManager::derive_key("password", b"salt", 1);
    assert_eq!(
        hex::encode(&one),
        "120fb6cffcf8b32c43e7225256c4f837a86548c92ccc35480805987cb70be17b"
    );
    let two = KeyManager::derive_key("password", b"salt", 2);
    assert_eq!(
        hex::encode(&two),
        "ae4d0c95af6b46d32d0adff928f06dd02a303f8ef3c251dfd6e2d85a95474c43"
    );
    let many = KeyManager::derive_key("password", b"salt", 4096);
    assert_eq!(
        hex::encode(&many),
        "c5e478d59288c841aa530db6845c4c8d962893a001ce4e11a4963873aa98134a"
    );
}

#[test]
fn long_name_of_a_device_is_hashed_first() {
    let long = "x".repeat(65);
    let a = KeyManager::derive_key(&long, b"salt", 3);
    let b = KeyManager::derive_key(&"x".repeat(64), b"salt", 3);
    assert_eq!(a.len(), 32);
    assert_ne!(a, b);
}

#[test]
fn device_without_a_name_has_no_key() {
    let manager = KeyManager::new("key.config");
    let r = manager.get_or_create_db_key(None, "");
    assert!(matches!(r, Err(KeyError::DeviceIdError(_))));
}

#[test]
fn new_key_keeps_salt_iterations_and_version() {
    let manager = KeyManager::new("dir/key.config");
    assert_eq!(manager.config_path(), "dir/key.config");
    let outcome = manager.get_or_create_db_key(None, "host").unwrap();
    let kept: KeyConfig = outcome.created.unwrap();
    assert_eq!(kept.salt.len(), 32);
    assert_eq!(kept.iterations, 100_000);
    assert_eq!(kept.version, 1);
    let other = manager.get_or_create_db_key(Some(&kept), "another-host").unwrap();
    assert!(other.created.is_none());
    assert_ne!(other.key_hex, outcome.key_hex);
}
