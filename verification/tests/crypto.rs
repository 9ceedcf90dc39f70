use qrdv::crypto::{decrypt, encrypt, generate_nonce, generate_salt, CryptoError};

#[test]
fn test_encrypt_decrypt() {
    let data = b"Hello, World!";
    let password = "test_password";
    let salt = generate_salt();
    let nonce = generate_nonce();

    let encrypted = encrypt(data, password, &salt, &nonce).unwrap();
    assert_ne!(encrypted, data);

    let decrypted = decrypt(&encrypted, password, &salt, &nonce).unwrap();
    assert_eq!(decrypted, data);
}

#[test]
fn test_wrong_password() {
    let data = b"Secret data";
    let password = "correct_password";
    let salt = generate_salt();
    let nonce = generate_nonce();

    let encrypted = encrypt(data, password, &salt, &nonce).unwrap();
    let result = decrypt(&encrypted, "wrong_password", &salt, &nonce);
    assert!(result.is_err());
}

#[test]
fn ciphertext_is_tag_longer_than_plaintext() {
    let salt = [7u8; 16];
    let nonce = [9u8; 12];
    let encrypted = encrypt(b"abc", "pw", &salt, &nonce).unwrap();
    assert_eq!(encrypted.len(), 3 + 16);
}

#[test]
fn corrupted_ciphertext_is_rejected() {
    let salt = [1u8; 16];
    let nonce = [2u8; 12];
    let mut encrypted = encrypt(b"payload", "pw", &salt, &nonce).unwrap();
    encrypted[0] ^= 0xff;
    assert_eq!(decrypt(&encrypted, "pw", &salt, &nonce), Err(CryptoError::Decryption));
}

#[test]
fn wrong_nonce_is_rejected() {
    let salt = [1u8; 16];
    let encrypted = encrypt(b"payload", "pw", &salt, &[2u8; 12]).unwrap();
    assert_eq!(decrypt(&encrypted, "pw", &salt, &[3u8; 12]), Err(CryptoError::Decryption));
}

#[test]
fn same_inputs_give_same_ciphertext() {
    let salt = [5u8; 16];
    let nonce = [6u8; 12];
    let a = encrypt(b"deterministic", "key", &salt, &nonce).unwrap();
    let b = encrypt(b"deterministic", "key", &salt, &nonce).unwrap();
    assert_eq!(a, b);
}

#[test]
fn short_ciphertext_is_rejected() {
    let salt = [1u8; 16];
    let nonce = [2u8; 12];
    assert_eq!(decrypt(&[0u8; 5], "pw", &salt, &nonce), Err(CryptoError::Decryption));
}

#[test]
fn salts_and_nonces_are_random() {
    assert_ne!(generate_salt(), generate_salt());
    assert_ne!(generate_nonce(), generate_nonce());
}

#[test]
fn accepted_ciphertext_is_the_encryption_of_its_plaintext() {
    let (salt, nonce) = ([5u8; 16], [6u8; 12]);
    let c = encrypt(b"some bytes", "pw", &salt, &nonce).unwrap();
    let p = decrypt(&c, "pw", &salt, &nonce).unwrap();
    assert_eq!(c.len(), p.len() + 16);
    assert_eq!(encrypt(&p, "pw", &salt, &nonce).unwrap(), c);
    assert_eq!(decrypt(&c[..15], "pw", &salt, &nonce).err(), Some(CryptoError::Decryption));
}
