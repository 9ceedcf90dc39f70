//! AES-256-GCM encryption with an Argon2id-derived key.

use vstd::prelude::*;
use aes_gcm::aead::{Aead, KeyInit};
use rand::RngCore;
use vstd::utf8::encode_utf8;

verus! {

/// Length of the salt fed to Argon2id.
pub const SALT_LEN: usize = 16;

/// Length of the AES-GCM nonce.
pub const NONCE_LEN: usize = 12;

/// The longest password Argon2 accepts, in bytes.
pub const MAX_PASSWORD_LEN: usize = 0xFFFF_FFFF;

/// The longest plaintext AES-GCM accepts, in bytes (2^36).
pub const MAX_PLAINTEXT_LEN: u64 = 0x10_0000_0000;

/// The 32-byte key that Argon2id with default parameters derives from a
/// password and a salt.
pub uninterp spec fn argon2id_key(password: Seq<u8>, salt: Seq<u8>) -> Seq<u8>;

/// The AES-256-GCM ciphertext (with its 16-byte tag appended) of a plaintext
/// under a key and a nonce, with no associated data.
pub uninterp spec fn aes256gcm_seal(key: Seq<u8>, nonce: Seq<u8>, plaintext: Seq<u8>) -> Seq<u8>;

/// The plaintext that AES-256-GCM recovers from a ciphertext under a key and
/// a nonce, or `None` where authentication fails.
pub uninterp spec fn aes256gcm_open(key: Seq<u8>, nonce: Seq<u8>, ciphertext: Seq<u8>) -> Option<
    Seq<u8>,
>;

/// The error of `argon2`, carried through opaque.
#[verifier::external_type_specification]
#[verifier::external_body]
pub struct ExArgon2Error(argon2::Error);

/// The error of `aes_gcm`, carried through opaque.
#[verifier::external_type_specification]
#[verifier::external_body]
pub struct ExAeadError(aes_gcm::aead::Error);

/// `argon2::Argon2::default().hash_password_into` with a 16-byte salt and a
/// 32-byte output: it fails exactly when the password is longer than
/// `0xFFFF_FFFF` bytes, and otherwise fills the output with the named key.
#[verifier::external_body]
fn argon2_hash_into(password: &[u8], salt: &[u8; 16], out: &mut [u8; 32]) -> (r: Result<
    (),
    argon2::Error,
>)
    ensures
        r is Ok <==> password@.len() <= MAX_PASSWORD_LEN,
        r is Ok ==> final(out)@ == argon2id_key(password@, salt@),
{
    argon2::Argon2::default().hash_password_into(password, salt, out)
}

/// `Aes256Gcm::encrypt` under `key`: it fails exactly when the plaintext is
/// longer than 2^36 bytes; otherwise the ciphertext is the named one, 16 bytes
/// longer than the plaintext, and opening it under the same key and nonce
/// gives the plaintext back.
#[verifier::external_body]
fn aes256gcm_encrypt(key: &[u8; 32], nonce: &[u8; 12], plaintext: &[u8]) -> (r: Result<
    Vec<u8>,
    aes_gcm::aead::Error,
>)
    ensures
        r is Ok <==> plaintext@.len() <= MAX_PLAINTEXT_LEN,
        r matches Ok(c) ==> {
            &&& c@ == aes256gcm_seal(key@, nonce@, plaintext@)
            &&& c@.len() == plaintext@.len() + 16
            &&& aes256gcm_open(key@, nonce@, c@) == Some(plaintext@)
        },
{
    aes_gcm::Aes256Gcm::new(key.into()).encrypt(aes_gcm::Nonce::from_slice(nonce), plaintext)
}

/// `Aes256Gcm::decrypt` under `key`: it gives the named plaintext, and fails
/// exactly where there is none.  What it accepts is the plaintext followed by
/// a 16-byte tag, and since the tag was checked, encrypting the plaintext
/// again under the same key and nonce (where it is short enough to encrypt)
/// gives exactly the ciphertext: GCM is deterministic.
#[verifier::external_body]
fn aes256gcm_decrypt(key: &[u8; 32], nonce: &[u8; 12], ciphertext: &[u8]) -> (r: Result<
    Vec<u8>,
    aes_gcm::aead::Error,
>)
    ensures
        match aes256gcm_open(key@, nonce@, ciphertext@) {
            Some(p) => r matches Ok(v) && v@ == p,
            None => r is Err,
        },
        r matches Ok(p) ==> ciphertext@.len() == p@.len() + 16,
        r matches Ok(p) ==> (p@.len() <= MAX_PLAINTEXT_LEN ==> aes256gcm_seal(key@, nonce@, p@)
            == ciphertext@),
{
    aes_gcm::Aes256Gcm::new(key.into()).decrypt(aes_gcm::Nonce::from_slice(nonce), ciphertext)
}

/// `OsRng.fill_bytes` (through `rand::RngCore`): fills the buffer with bytes
/// from the operating system.  Nothing is stated of the bytes.
#[verifier::external_body]
fn fill_random<const N: usize>(buf: &mut [u8; N]) {
    aes_gcm::aead::OsRng.fill_bytes(buf)
}

/// Why an encryption step failed.
#[derive(Debug, Clone, Copy, PartialEq, Eq, Structural)]
pub enum CryptoError {
    /// Argon2 refused the password (longer than `0xFFFF_FFFF` bytes).
    KeyDerivation,
    /// The plaintext is longer than AES-GCM accepts.
    Encryption,
    /// Wrong key or corrupted data.
    Decryption,
}

/// The key derived from a password's bytes and a salt, where Argon2 accepts them.
pub open spec fn spec_derive_key(password: Seq<u8>, salt: Seq<u8>) -> Option<Seq<u8>> {
    if password.len() <= MAX_PASSWORD_LEN {
        Some(argon2id_key(password, salt))
    } else {
        None
    }
}

/// What [`encrypt`] returns.
pub open spec fn spec_encrypt(data: Seq<u8>, password: Seq<u8>, salt: Seq<u8>, nonce: Seq<u8>) -> Result<
    Seq<u8>,
    CryptoError,
> {
    match spec_derive_key(password, salt) {
        None => Err(CryptoError::KeyDerivation),
        Some(key) => if data.len() <= MAX_PLAINTEXT_LEN {
            Ok(aes256gcm_seal(key, nonce, data))
        } else {
            Err(CryptoError::Encryption)
        },
    }
}

/// What [`decrypt`] returns.
pub open spec fn spec_decrypt(
    ciphertext: Seq<u8>,
    password: Seq<u8>,
    salt: Seq<u8>,
    nonce: Seq<u8>,
) -> Result<Seq<u8>, CryptoError> {
    match spec_derive_key(password, salt) {
        None => Err(CryptoError::KeyDerivation),
        Some(key) => match aes256gcm_open(key, nonce, ciphertext) {
            Some(p) => Ok(p),
            None => Err(CryptoError::Decryption),
        },
    }
}

/// Derives a 256-bit key from a password using Argon2id.
fn derive_key(password: &str, salt: &[u8; SALT_LEN]) -> (r: Result<[u8; 32], CryptoError>)
    ensures
        match spec_derive_key(encode_utf8(password@), salt@) {
            Some(k) => r matches Ok(key) && key@ == k,
            None => r == Err::<[u8; 32], CryptoError>(CryptoError::KeyDerivation),
        },
{
    let mut key = [0u8; 32];
    match argon2_hash_into(password.as_bytes(), salt, &mut key) {
        Ok(()) => Ok(key),
        Err(_) => Err(CryptoError::KeyDerivation),
    }
}

/// Generates a random salt.
pub fn generate_salt() -> (r: [u8; SALT_LEN]) {
    let mut salt = [0u8; SALT_LEN];
    fill_random(&mut salt);
    salt
}

/// Generates a random nonce.
pub fn generate_nonce() -> (r: [u8; NONCE_LEN]) {
    let mut nonce = [0u8; NONCE_LEN];
    fill_random(&mut nonce);
    nonce
}

/// Encrypts `data` with AES-256-GCM under the key derived from `password` and
/// `salt`.  Decrypting the result with the same password, salt and nonce gives
/// `data` back.
pub fn encrypt(data: &[u8], password: &str, salt: &[u8; SALT_LEN], nonce: &[u8; NONCE_LEN]) -> (r:
    Result<Vec<u8>, CryptoError>)
    ensures
        match spec_encrypt(data@, encode_utf8(password@), salt@, nonce@) {
            Ok(c) => r matches Ok(v) && v@ == c,
            Err(e) => r == Err::<Vec<u8>, CryptoError>(e),
        },
        r matches Ok(c) ==> c@.len() == data@.len() + 16,
        encode_utf8(password@).len() <= MAX_PASSWORD_LEN && data@.len() <= MAX_PLAINTEXT_LEN ==> (
        r matches Ok(c) && c@ == aes256gcm_seal(
            argon2id_key(encode_utf8(password@), salt@),
            nonce@,
            data@,
        )),
        r matches Ok(c) ==> spec_decrypt(c@, encode_utf8(password@), salt@, nonce@) == Ok::<
            Seq<u8>,
            CryptoError,
        >(data@),
{
    let key = derive_key(password, salt)?;
    match aes256gcm_encrypt(&key, nonce, data) {
        Ok(c) => Ok(c),
        Err(_) => Err(CryptoError::Encryption),
    }
}

/// Encryption uses the Argon2id key of the password's bytes and the salt
/// exactly as given: it succeeds exactly when Argon2 and AES-GCM accept the
/// lengths, and then gives the AES-256-GCM sealing of the data under that key
/// and the nonce.
pub proof fn lemma_encrypt_key_from_given_salt(
    data: Seq<u8>,
    password: Seq<u8>,
    salt: Seq<u8>,
    nonce: Seq<u8>,
)
    ensures
        spec_encrypt(data, password, salt, nonce) is Ok <==> password.len() <= MAX_PASSWORD_LEN
            && data.len() <= MAX_PLAINTEXT_LEN,
        spec_encrypt(data, password, salt, nonce) is Ok ==> spec_encrypt(
            data,
            password,
            salt,
            nonce,
        ) == Ok::<Seq<u8>, CryptoError>(aes256gcm_seal(argon2id_key(password, salt), nonce, data)),
{
}

/// Decryption opens the ciphertext under the Argon2id key of the password's
/// bytes and the salt exactly as given, with the given nonce; it fails with
/// [`CryptoError::Decryption`] exactly where that key does not open it.
pub proof fn lemma_decrypt_key_from_given_salt(
    ciphertext: Seq<u8>,
    password: Seq<u8>,
    salt: Seq<u8>,
    nonce: Seq<u8>,
)
    requires
        password.len() <= MAX_PASSWORD_LEN,
    ensures
        spec_decrypt(ciphertext, password, salt, nonce) == match aes256gcm_open(
            argon2id_key(password, salt),
            nonce,
            ciphertext,
        ) {
            Some(p) => Ok::<Seq<u8>, CryptoError>(p),
            None => Err(CryptoError::Decryption),
        },
{
}

/// Decrypts `ciphertext` with AES-256-GCM under the key derived from
/// `password` and `salt`.  Fails with [`CryptoError::Decryption`] on a wrong
/// key or corrupted data.  A ciphertext that is accepted is exactly the
/// encryption of the plaintext it gives.
pub fn decrypt(ciphertext: &[u8], password: &str, salt: &[u8; SALT_LEN], nonce: &[u8; NONCE_LEN]) -> (r:
    Result<Vec<u8>, CryptoError>)
    ensures
        match spec_decrypt(ciphertext@, encode_utf8(password@), salt@, nonce@) {
            Ok(p) => r matches Ok(v) && v@ == p,
            Err(e) => r == Err::<Vec<u8>, CryptoError>(e),
        },
        r matches Ok(p) ==> ciphertext@.len() == p@.len() + 16,
        r matches Ok(p) ==> aes256gcm_open(
            argon2id_key(encode_utf8(password@), salt@),
            nonce@,
            ciphertext@,
        ) == Some(p@),
        r matches Ok(p) ==> (p@.len() <= MAX_PLAINTEXT_LEN ==> spec_encrypt(
            p@,
            encode_utf8(password@),
            salt@,
            nonce@,
        ) == Ok::<Seq<u8>, CryptoError>(ciphertext@)),
{
    let key = derive_key(password, salt)?;
    match aes256gcm_decrypt(&key, nonce, ciphertext) {
        Ok(p) => Ok(p),
        Err(_) => Err(CryptoError::Decryption),
    }
}

} // verus!
