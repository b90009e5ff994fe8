use culinator::application::error::ApplicationError;
use culinator::secrets::{
    decrypt, encrypt, encryption_key, open_secret, seal_secret, EncryptedBlob, EncryptedFileSecretStore,
    KeyringSecretStore, SecretFile, CULINATOR_SERVICE, OPENAI_API_KEY,
};

fn key() -> Vec<u8> {
    encryption_key(Some("cook"), Some("/home/cook"), Some("/usr/bin/culinator"))
}

#[test]
fn sealed_secrets_open_to_what_was_sealed() {
    let key = key();
    assert_eq!(key.len(), 32);
    let blob = encrypt("sk-test-key", &key, &[7u8; 12]).unwrap();
    assert_eq!(blob.nonce, "BwcHBwcHBwcHBwcH");
    assert_ne!(blob.ciphertext, "sk-test-key");
    assert_eq!(decrypt(&blob, &key).unwrap(), "sk-test-key");
    let unicode = encrypt("clé secrète", &key, &[1u8; 12]).unwrap();
    assert_eq!(decrypt(&unicode, &key).unwrap(), "clé secrète");
}

#[test]
fn the_key_depends_on_the_environment() {
    assert_eq!(key(), key());
    assert_ne!(key(), encryption_key(Some("other"), Some("/home/cook"), Some("/usr/bin/culinator")));
    assert_ne!(key(), encryption_key(None, None, None));
}

fn persistence_message(r: Result<String, ApplicationError>) -> String {
    match r {
        Err(ApplicationError::Persistence(m)) => m,
        other => panic!("expected a persistence error, got {other:?}"),
    }
}

#[test]
fn damaged_secrets_are_refused() {
    let key = key();
    let blob = encrypt("value", &key, &[2u8; 12]).unwrap();
    let bad_nonce = EncryptedBlob { nonce: "***".into(), ciphertext: blob.ciphertext.clone() };
    assert!(persistence_message(decrypt(&bad_nonce, &key)).starts_with("invalid secret nonce: "));
    let short_nonce = EncryptedBlob { nonce: "AAAA".into(), ciphertext: blob.ciphertext.clone() };
    assert_eq!(persistence_message(decrypt(&short_nonce, &key)), "invalid secret nonce length");
    let bad_text = EncryptedBlob { nonce: blob.nonce.clone(), ciphertext: "!".into() };
    assert!(persistence_message(decrypt(&bad_text, &key)).starts_with("invalid secret ciphertext: "));
    let other_key = encryption_key(None, None, None);
    assert!(persistence_message(decrypt(&blob, &other_key)).starts_with("decryption failed: "));
}

#[test]
fn stores_know_their_place() {
    let store = EncryptedFileSecretStore::new("/tmp/secrets.enc");
    assert_eq!(store.path(), "/tmp/secrets.enc");
    let _keyring = KeyringSecretStore::new();
    assert_eq!(CULINATOR_SERVICE, "culinator");
    assert_eq!(OPENAI_API_KEY, "openai_api_key");
}

#[test]
fn secrets_file_keeps_each_name_apart() {
    let key = encryption_key(Some("cook"), Some("/home/cook"), None);
    let mut file = SecretFile::new();
    seal_secret(&mut file, "one", "alpha", &key, &[1u8; 12]).unwrap();
    seal_secret(&mut file, "two", "beta", &key, &[2u8; 12]).unwrap();
    assert_eq!(open_secret(&file, "one", &key).unwrap(), Some("alpha".to_string()));
    assert_eq!(open_secret(&file, "two", &key).unwrap(), Some("beta".to_string()));
    seal_secret(&mut file, "one", "gamma", &key, &[3u8; 12]).unwrap();
    assert_eq!(open_secret(&file, "one", &key).unwrap(), Some("gamma".to_string()));
    assert_eq!(file.entries.len(), 2);
    assert!(file.delete("one"));
    assert!(!file.delete("one"));
    assert_eq!(open_secret(&file, "one", &key).unwrap(), None);
    assert_eq!(open_secret(&file, "two", &key).unwrap(), Some("beta".to_string()));
    assert_eq!(open_secret(&file, "three", &key).unwrap(), None);
}
