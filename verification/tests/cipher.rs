use shoko::encrypt::{decrypt_data, encrypt_data, get_encryption_key, seal_with_nonce};
use shoko::error::ShokoError;

fn secret() -> Option<Vec<u8>> {
    Some(b"0123456789abcdef0123456789abcdef".to_vec())
}

fn other_secret() -> Option<Vec<u8>> {
    Some(b"fedcba9876543210fedcba9876543210".to_vec())
}

fn hex(text: &str) -> Vec<u8> {
    (0..text.len() / 2)
        .map(|i| u8::from_str_radix(&text[2 * i..2 * i + 2], 16).unwrap())
        .collect()
}

#[test]
fn key_is_checked() {
    let good = secret();
    assert_eq!(
        get_encryption_key(&good),
        Ok(&b"0123456789abcdef0123456789abcdef"[..])
    );
    assert_eq!(get_encryption_key(&None), Err(ShokoError::PermissionDenied));
    assert_eq!(
        get_encryption_key(&Some(vec![1u8; 31])),
        Err(ShokoError::InvalidInput)
    );
    assert_eq!(
        get_encryption_key(&Some(vec![1u8; 33])),
        Err(ShokoError::InvalidInput)
    );
    assert_eq!(
        get_encryption_key(&Some(Vec::new())),
        Err(ShokoError::InvalidInput)
    );
}

#[test]
fn seal_then_open_returns_the_plaintext() {
    for data in [&b""[..], &b"x"[..], &b"hello shoko"[..], &[0u8; 500][..]] {
        let blob = encrypt_data(&secret(), data).unwrap();
        assert_eq!(blob.len(), 12 + data.len() + 16);
        assert_eq!(decrypt_data(&secret(), &blob), Ok(data.to_vec()));
    }
}

#[test]
fn sealed_blob_hides_the_plaintext() {
    let data = b"the same sixteen bytes, twice over".to_vec();
    let blob = encrypt_data(&secret(), &data).unwrap();
    assert_ne!(&blob[12..12 + data.len()], &data[..]);
}

#[test]
fn every_seal_has_its_own_nonce() {
    let first = encrypt_data(&secret(), b"payload").unwrap();
    let second = encrypt_data(&secret(), b"payload").unwrap();
    assert_ne!(first[..12], second[..12]);
    assert_ne!(first, second);
}

#[test]
fn seal_with_chosen_nonce_is_aes_256_gcm() {
    let key = [0u8; 32];
    let nonce = [0u8; 12];
    let empty = seal_with_nonce(&key, &nonce, &[]).unwrap();
    let mut expected = nonce.to_vec();
    expected.extend(hex("530f8afbc74536b9a963b4f1c4cb738b"));
    assert_eq!(empty, expected);

    let block = seal_with_nonce(&key, &nonce, &[0u8; 16]).unwrap();
    let mut expected = nonce.to_vec();
    expected.extend(hex("cea7403d4d606b6e074ec5d3baf39d18"));
    expected.extend(hex("d0d1c8a799996bf0265b98b5d48ab919"));
    assert_eq!(block, expected);
    assert_eq!(decrypt_data(&Some(key.to_vec()), &block), Ok(vec![0u8; 16]));
}

#[test]
fn open_under_another_secret_fails() {
    let blob = encrypt_data(&secret(), b"hello shoko").unwrap();
    assert_eq!(
        decrypt_data(&other_secret(), &blob),
        Err(ShokoError::PermissionDenied)
    );
}

#[test]
fn open_of_a_flipped_bit_fails() {
    let blob = encrypt_data(&secret(), b"hello shoko").unwrap();
    for byte in 0..blob.len() {
        for bit in 0..8 {
            let mut damaged = blob.clone();
            damaged[byte] ^= 1 << bit;
            assert_eq!(
                decrypt_data(&secret(), &damaged),
                Err(ShokoError::PermissionDenied)
            );
        }
    }
}

#[test]
fn open_of_a_cut_blob_fails() {
    let blob = encrypt_data(&secret(), b"hello shoko").unwrap();
    assert_eq!(
        decrypt_data(&secret(), &blob[..11]),
        Err(ShokoError::InvalidInput)
    );
    assert_eq!(decrypt_data(&secret(), &[]), Err(ShokoError::InvalidInput));
    assert_eq!(
        decrypt_data(&secret(), &blob[..12]),
        Err(ShokoError::PermissionDenied)
    );
    assert_eq!(
        decrypt_data(&secret(), &blob[..blob.len() - 1]),
        Err(ShokoError::PermissionDenied)
    );
}

#[test]
fn missing_or_wrong_sized_secret_is_refused() {
    assert_eq!(encrypt_data(&None, b"x"), Err(ShokoError::PermissionDenied));
    assert_eq!(
        encrypt_data(&Some(vec![0u8; 16]), b"x"),
        Err(ShokoError::InvalidInput)
    );
    let blob = encrypt_data(&secret(), b"x").unwrap();
    assert_eq!(decrypt_data(&None, &blob), Err(ShokoError::PermissionDenied));
    assert_eq!(
        decrypt_data(&Some(vec![0u8; 16]), &blob),
        Err(ShokoError::InvalidInput)
    );
    assert_eq!(decrypt_data(&None, &[0u8; 3]), Err(ShokoError::InvalidInput));
}

#[test]
fn seal_with_chosen_nonce_checks_the_lengths() {
    assert_eq!(
        seal_with_nonce(&[0u8; 31], &[0u8; 12], b"x"),
        Err(ShokoError::InvalidInput)
    );
    assert_eq!(
        seal_with_nonce(&[0u8; 32], &[0u8; 11], b"x"),
        Err(ShokoError::InvalidInput)
    );
    assert_eq!(
        seal_with_nonce(&[0u8; 32], &[0u8; 13], b"x"),
        Err(ShokoError::InvalidInput)
    );
    assert_eq!(seal_with_nonce(&[0u8; 32], &[0u8; 12], b"x").unwrap().len(), 29);
}
