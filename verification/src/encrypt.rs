//! Authenticated encryption of one blob with AES-256-GCM.
//!
//! A sealed blob is a 12-byte nonce followed by the ciphertext and its
//! 16-byte tag. The secret is handed in by the caller on every call; it is
//! never kept.

use vstd::prelude::*;
use crate::bytes::append_all;
use crate::error::ShokoError;
use aes_gcm::aead::Aead;
use aes_gcm::{Aes256Gcm, KeyInit, Nonce};
use rand::RngCore;

verus! {

/// Length of the secret in bytes.
pub const KEY_LEN: usize = 32;

/// Length of the nonce in front of each sealed blob.
pub const NONCE_LEN: usize = 12;

/// Length of the authentication tag that ends each sealed blob.
pub const TAG_LEN: usize = 16;

/// Longest plaintext, in bytes, that AES-GCM encrypts under one nonce.
pub const MAX_PLAINTEXT: u64 = 0x10_0000_0000;

/// What AES-256-GCM makes of a plaintext under a 32-byte key and a 12-byte
/// nonce, with no associated data: ciphertext and tag, or `None` where the
/// cipher refuses the plaintext.
pub uninterp spec fn aes256_gcm_encrypt(key: Seq<u8>, nonce: Seq<u8>, plaintext: Seq<u8>) -> Option<
    Seq<u8>,
>;

/// What AES-256-GCM recovers from ciphertext and tag under a 32-byte key and
/// a 12-byte nonce, with no associated data, or `None` where the tag does
/// not authenticate them.
pub uninterp spec fn aes256_gcm_decrypt(key: Seq<u8>, nonce: Seq<u8>, sealed: Seq<u8>) -> Option<
    Seq<u8>,
>;

/// Calls `Aes256Gcm::encrypt` of the `aes-gcm` crate on a cipher made by
/// `Aes256Gcm::new_from_slice`. Taken on trust: the result is the cipher's
/// own function of key, nonce and plaintext; it exists exactly for
/// plaintexts of at most 2^36 bytes; it is 16 bytes longer than the
/// plaintext; and the cipher's decryption under the same key and nonce
/// recovers the plaintext from it.
#[verifier::external_body]
fn aead_encrypt(key: &[u8], nonce: &[u8], plaintext: &[u8]) -> (res: Option<Vec<u8>>)
    requires
        key@.len() == KEY_LEN,
        nonce@.len() == NONCE_LEN,
    ensures
        res.is_some() == (plaintext@.len() <= MAX_PLAINTEXT),
        match res {
            Some(sealed) => {
                &&& aes256_gcm_encrypt(key@, nonce@, plaintext@) == Some(sealed@)
                &&& sealed@.len() == plaintext@.len() + TAG_LEN
                &&& aes256_gcm_decrypt(key@, nonce@, sealed@) == Some(plaintext@)
            },
            None => aes256_gcm_encrypt(key@, nonce@, plaintext@).is_none(),
        },
{
    let cipher = Aes256Gcm::new_from_slice(key).ok()?;
    cipher.encrypt(Nonce::from_slice(nonce), plaintext).ok()
}

/// Calls `Aes256Gcm::decrypt` of the `aes-gcm` crate on a cipher made by
/// `Aes256Gcm::new_from_slice`. Taken on trust: the result is the cipher's
/// own function of key, nonce and sealed bytes.
#[verifier::external_body]
fn aead_decrypt(key: &[u8], nonce: &[u8], sealed: &[u8]) -> (res: Option<Vec<u8>>)
    requires
        key@.len() == KEY_LEN,
        nonce@.len() == NONCE_LEN,
    ensures
        match res {
            Some(plaintext) => aes256_gcm_decrypt(key@, nonce@, sealed@) == Some(plaintext@),
            None => aes256_gcm_decrypt(key@, nonce@, sealed@).is_none(),
        },
{
    let cipher = Aes256Gcm::new_from_slice(key).ok()?;
    cipher.decrypt(Nonce::from_slice(nonce), sealed).ok()
}

/// Fills 12 bytes from `rand::rng()`, the thread's cryptographically strong
/// generator. Taken on trust: the length of the result, and nothing of its
/// content.
#[verifier::external_body]
fn fresh_nonce() -> (nonce: Vec<u8>)
    ensures
        nonce@.len() == NONCE_LEN,
{
    let mut bytes = [0u8; 12];
    rand::rng().fill_bytes(&mut bytes);
    bytes.to_vec()
}

/// The view of a configured secret.
pub open spec fn secret_view(secret: Option<Vec<u8>>) -> Option<Seq<u8>> {
    match secret {
        Some(bytes) => Some(bytes@),
        None => None,
    }
}

/// The key that a configured secret gives: a missing secret is refused as
/// `PermissionDenied`, one that is not 32 bytes long as `InvalidInput`.
pub open spec fn spec_encryption_key(secret: Option<Seq<u8>>) -> Result<Seq<u8>, ShokoError> {
    match secret {
        None => Err(ShokoError::PermissionDenied),
        Some(key) => if key.len() == KEY_LEN {
            Ok(key)
        } else {
            Err(ShokoError::InvalidInput)
        },
    }
}

/// The sealed blob for a plaintext under a key and a nonce: the nonce, then
/// ciphertext and tag. A key that is not 32 bytes or a nonce that is not 12
/// bytes long is `InvalidInput`, a plaintext that the cipher refuses
/// `InvalidData`.
pub open spec fn spec_seal(key: Seq<u8>, nonce: Seq<u8>, plaintext: Seq<u8>) -> Result<
    Seq<u8>,
    ShokoError,
> {
    if key.len() != KEY_LEN || nonce.len() != NONCE_LEN {
        Err(ShokoError::InvalidInput)
    } else {
        match aes256_gcm_encrypt(key, nonce, plaintext) {
            Some(sealed) => Ok(nonce + sealed),
            None => Err(ShokoError::InvalidData),
        }
    }
}

/// What opening a sealed blob under a configured secret gives: a blob
/// shorter than a nonce is `InvalidInput`, then the secret is checked, and
/// bytes that do not authenticate are `PermissionDenied`.
pub open spec fn spec_decrypt_data(secret: Option<Seq<u8>>, blob: Seq<u8>) -> Result<
    Seq<u8>,
    ShokoError,
> {
    if blob.len() < NONCE_LEN {
        Err(ShokoError::InvalidInput)
    } else {
        match spec_encryption_key(secret) {
            Err(e) => Err(e),
            Ok(key) => match aes256_gcm_decrypt(
                key,
                blob.subrange(0, NONCE_LEN as int),
                blob.skip(NONCE_LEN as int),
            ) {
                Some(plaintext) => Ok(plaintext),
                None => Err(ShokoError::PermissionDenied),
            },
        }
    }
}

/// A byte result seen through the view of its bytes.
pub open spec fn bytes_result_view(res: Result<Vec<u8>, ShokoError>) -> Result<Seq<u8>, ShokoError> {
    match res {
        Ok(bytes) => Ok(bytes@),
        Err(e) => Err(e),
    }
}

/// Checks the configured secret and hands out the 32-byte key.
pub fn get_encryption_key(secret: &Option<Vec<u8>>) -> (res: Result<&[u8], ShokoError>)
    ensures
        match res {
            Ok(key) => spec_encryption_key(secret_view(*secret)) == Ok::<Seq<u8>, ShokoError>(key@),
            Err(e) => spec_encryption_key(secret_view(*secret)) == Err::<Seq<u8>, ShokoError>(e),
        },
{
    match secret {
        None => Err(ShokoError::PermissionDenied),
        Some(bytes) => {
            if bytes.len() == KEY_LEN {
                Ok(bytes.as_slice())
            } else {
                Err(ShokoError::InvalidInput)
            }
        },
    }
}

/// Seals `data` under `key` with the nonce that the caller chose: the nonce,
/// then ciphertext and tag. A key that is not 32 bytes or a nonce that is
/// not 12 bytes long is `InvalidInput`, a plaintext beyond the cipher's
/// limit `InvalidData`.
pub fn seal_with_nonce(key: &[u8], nonce: &[u8], data: &[u8]) -> (res: Result<Vec<u8>, ShokoError>)
    ensures
        bytes_result_view(res) == spec_seal(key@, nonce@, data@),
        res.is_ok() == (key@.len() == KEY_LEN && nonce@.len() == NONCE_LEN && data@.len()
            <= MAX_PLAINTEXT),
        res matches Ok(blob) ==> {
            &&& blob@.len() == NONCE_LEN + data@.len() + TAG_LEN
            &&& spec_decrypt_data(Some(key@), blob@) == Ok::<Seq<u8>, ShokoError>(data@)
        },
{
    if key.len() != KEY_LEN || nonce.len() != NONCE_LEN {
        return Err(ShokoError::InvalidInput);
    }
    match aead_encrypt(key, nonce, data) {
        None => Err(ShokoError::InvalidData),
        Some(sealed) => {
            let mut blob: Vec<u8> = Vec::new();
            append_all(&mut blob, nonce);
            append_all(&mut blob, sealed.as_slice());
            proof {
                assert(blob@ =~= nonce@ + sealed@);
                assert(blob@.subrange(0, NONCE_LEN as int) =~= nonce@);
                assert(blob@.skip(NONCE_LEN as int) =~= sealed@);
            }
            Ok(blob)
        },
    }
}

/// Seals `data` under the configured secret with a fresh random nonce.
///
/// The nonce differs from call to call, so the contract fixes the blob only
/// up to its first 12 bytes: the rest is the cipher's output under them, and
/// opening the blob under the same secret gives `data` back.
pub fn encrypt_data(secret: &Option<Vec<u8>>, data: &[u8]) -> (res: Result<Vec<u8>, ShokoError>)
    ensures
        match spec_encryption_key(secret_view(*secret)) {
            Err(e) => res == Err::<Vec<u8>, ShokoError>(e),
            Ok(key) => if data@.len() <= MAX_PLAINTEXT {
                &&& res.is_ok()
                &&& res.unwrap()@.len() == NONCE_LEN + data@.len() + TAG_LEN
                &&& spec_seal(key, res.unwrap()@.subrange(0, NONCE_LEN as int), data@)
                    == Ok::<Seq<u8>, ShokoError>(res.unwrap()@)
                &&& spec_decrypt_data(secret_view(*secret), res.unwrap()@) == Ok::<
                    Seq<u8>,
                    ShokoError,
                >(data@)
            } else {
                res == Err::<Vec<u8>, ShokoError>(ShokoError::InvalidData)
            },
        },
{
    let key = match get_encryption_key(secret) {
        Ok(key) => key,
        Err(e) => {
            return Err(e);
        },
    };
    let nonce = fresh_nonce();
    let res = seal_with_nonce(key, nonce.as_slice(), data);
    proof {
        if res.is_ok() {
            let sealed = aes256_gcm_encrypt(key@, nonce@, data@).unwrap();
            assert(res.unwrap()@ == nonce@ + sealed);
            assert(res.unwrap()@.subrange(0, NONCE_LEN as int) =~= nonce@);
        }
    }
    res
}

/// Opens a sealed blob under the configured secret. Too short a blob is
/// `InvalidInput`; a tag that does not match, a wrong key or damaged bytes
/// are `PermissionDenied`, and no plaintext comes out.
pub fn decrypt_data(secret: &Option<Vec<u8>>, data: &[u8]) -> (res: Result<Vec<u8>, ShokoError>)
    ensures
        bytes_result_view(res) == spec_decrypt_data(secret_view(*secret), data@),
{
    if data.len() < NONCE_LEN {
        return Err(ShokoError::InvalidInput);
    }
    let key = match get_encryption_key(secret) {
        Ok(key) => key,
        Err(e) => {
            return Err(e);
        },
    };
    let nonce = vstd::slice::slice_subrange(data, 0, NONCE_LEN);
    let sealed = vstd::slice::slice_subrange(data, NONCE_LEN, data.len());
    proof {
        assert(sealed@ =~= data@.skip(NONCE_LEN as int));
    }
    match aead_decrypt(key, nonce, sealed) {
        Some(plaintext) => Ok(plaintext),
        None => Err(ShokoError::PermissionDenied),
    }
}

} // verus!
