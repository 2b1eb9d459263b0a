use blockdag::cipher::{append_sealed, chunk_at, decrypt_payload, encrypt_payload, OAEP_OVERHEAD};
use blockdag::error::StoreError;
use blockdag::keys::{significant_len, PrivateKey, PublicKey};

const KEY_A_N: [u8; 128] = [
    0xc5, 0x4c, 0xb6, 0xc1, 0xa6, 0x35, 0x76, 0xe9, 0xd1, 0x56, 0x68, 0xcd, 0x8f, 0xbb, 0x0a, 0x98,
    0x60, 0x1d, 0x7a, 0x60, 0x53, 0x29, 0x94, 0x9e, 0x45, 0xaa, 0x58, 0x6b, 0x14, 0x2d, 0x01, 0x8a,
    0xec, 0xb3, 0x94, 0xc0, 0x2f, 0xed, 0xb9, 0x76, 0x0e, 0x3b, 0xfa, 0x24, 0x5e, 0xe2, 0xf3, 0xc3,
    0x20, 0x0d, 0xc4, 0x1d, 0x68, 0x8c, 0x22, 0x39, 0x99, 0x34, 0x7f, 0xe4, 0xae, 0x7c, 0xd6, 0x43,
    0x30, 0x6f, 0x42, 0x1b, 0x13, 0x30, 0xa7, 0x8f, 0xcb, 0x3f, 0x94, 0x37, 0x3b, 0x60, 0xdd, 0xd3,
    0x2c, 0x23, 0xe1, 0x75, 0x1e, 0x31, 0x4b, 0xa0, 0x7c, 0x85, 0xc0, 0x4b, 0x65, 0x49, 0x0a, 0x57,
    0x32, 0xf8, 0x14, 0x66, 0x0c, 0x3a, 0xda, 0x5d, 0x86, 0xca, 0xbc, 0xb3, 0x4d, 0x5f, 0x5e, 0xfb,
    0x8e, 0x08, 0xde, 0xfe, 0x31, 0x75, 0x42, 0xcd, 0xe2, 0x06, 0x61, 0x26, 0x0f, 0x6d, 0x14, 0xd5,
];
const KEY_A_D: [u8; 128] = [
    0x15, 0xe2, 0x25, 0x5f, 0x23, 0x35, 0x48, 0xe4, 0x34, 0x40, 0xd6, 0x4c, 0xfe, 0x85, 0x2b, 0x6e,
    0xad, 0x32, 0x77, 0xd1, 0x59, 0x48, 0x02, 0x60, 0xef, 0xaf, 0x2e, 0x31, 0x6a, 0x42, 0x77, 0xaa,
    0x56, 0x08, 0xb1, 0x16, 0x03, 0xfa, 0xe5, 0x18, 0x30, 0x09, 0xfc, 0xfb, 0xad, 0xbe, 0x94, 0x74,
    0xef, 0x08, 0x37, 0xd9, 0x5f, 0x30, 0x33, 0xd7, 0x99, 0xa3, 0x96, 0x0f, 0xe2, 0x3e, 0x9c, 0x71,
    0x13, 0x80, 0xa6, 0xb6, 0x8f, 0xfc, 0x99, 0x3e, 0xb1, 0x02, 0x6e, 0xb3, 0xe9, 0x71, 0x27, 0x9e,
    0xa0, 0x50, 0x5f, 0x3c, 0xd6, 0x15, 0x01, 0x48, 0x63, 0x16, 0x42, 0xd2, 0xb1, 0xda, 0x8c, 0x23,
    0xf0, 0xf7, 0x97, 0xaf, 0x53, 0x78, 0x22, 0xe2, 0x65, 0xdb, 0x5b, 0xb0, 0xf6, 0x73, 0x85, 0x9b,
    0x6e, 0x0f, 0xdf, 0x0a, 0xc2, 0x5d, 0xc9, 0x45, 0x13, 0xbd, 0x0d, 0xb1, 0xf3, 0x98, 0x09, 0x3d,
];
const KEY_A_P: [u8; 64] = [
    0xe4, 0x6f, 0x1c, 0x4a, 0x6f, 0xcb, 0x32, 0x61, 0x7f, 0x1e, 0xd2, 0xf4, 0x1c, 0x3a, 0x65, 0x61,
    0x8e, 0x76, 0x2f, 0xea, 0xa6, 0x6e, 0x5a, 0x11, 0x20, 0xfa, 0x81, 0x93, 0xb7, 0x4d, 0x27, 0xae,
    0xe5, 0x16, 0x30, 0x48, 0x0f, 0xa5, 0x14, 0x50, 0xc5, 0x28, 0x9a, 0x62, 0xcd, 0xb9, 0xa5, 0x11,
    0xa0, 0x7c, 0x90, 0xe4, 0x0d, 0xe0, 0x1e, 0xad, 0xa2, 0x72, 0x41, 0xf5, 0x48, 0xf7, 0xc8, 0xc7,
];
const KEY_A_Q: [u8; 64] = [
    0xdd, 0x1b, 0xc9, 0x4a, 0x26, 0xae, 0xfc, 0x20, 0x4e, 0x8d, 0xba, 0xce, 0x1f, 0x49, 0xee, 0xd1,
    0xc3, 0x77, 0xaf, 0x50, 0x97, 0xe2, 0xcd, 0x96, 0xab, 0x80, 0x54, 0x9f, 0xeb, 0x38, 0x36, 0xcf,
    0xb5, 0x9d, 0xaf, 0x9c, 0x21, 0xdd, 0x5c, 0x06, 0x52, 0x12, 0x36, 0xba, 0xc8, 0x1b, 0xea, 0x7b,
    0x2d, 0xc6, 0x72, 0x48, 0xb7, 0xd4, 0xd4, 0x02, 0x7d, 0x22, 0x99, 0x4a, 0x94, 0x72, 0xf1, 0x83,
];
const KEY_B_N: [u8; 128] = [
    0xdd, 0x6f, 0xca, 0xcc, 0xde, 0xa4, 0x49, 0xa1, 0x0f, 0x5a, 0xec, 0x32, 0x96, 0x2f, 0x57, 0xac,
    0xba, 0x62, 0x8f, 0x00, 0x75, 0xb4, 0xab, 0x44, 0x2c, 0xe2, 0x89, 0xe9, 0x0b, 0xd0, 0x48, 0xbf,
    0x9a, 0x34, 0xe3, 0xea, 0x00, 0x7d, 0xca, 0xc0, 0xe9, 0xb1, 0x5d, 0x6a, 0x9d, 0x14, 0x5a, 0x55,
    0x58, 0x2b, 0xe4, 0x5d, 0x29, 0xb3, 0x23, 0x3a, 0x20, 0xe7, 0xb2, 0x7e, 0xca, 0x17, 0xc7, 0x72,
    0xba, 0x4f, 0xe8, 0x04, 0x3a, 0xd5, 0x93, 0x20, 0xfc, 0xbf, 0x34, 0x7f, 0xf1, 0x5e, 0xfd, 0xe2,
    0x0c, 0xe8, 0xbd, 0x82, 0x37, 0x4b, 0x41, 0x59, 0xee, 0xe7, 0xd5, 0x7f, 0x22, 0x98, 0x33, 0xbe,
    0xc2, 0xea, 0xea, 0x6d, 0xc6, 0x82, 0x96, 0xf7, 0x90, 0x16, 0x9a, 0x38, 0x6d, 0xb3, 0x8e, 0xee,
    0x84, 0xe3, 0xca, 0x53, 0x48, 0xd6, 0x37, 0xfb, 0xf4, 0x67, 0x18, 0xcb, 0xd2, 0x1e, 0xf5, 0x05,
];
const KEY_B_D: [u8; 128] = [
    0x02, 0x27, 0x6b, 0xbc, 0x19, 0x70, 0x54, 0xad, 0x05, 0xe6, 0xb7, 0x04, 0x78, 0xf4, 0x85, 0xf0,
    0x4e, 0xb1, 0xd5, 0xbd, 0x45, 0xe7, 0xd7, 0x80, 0xa6, 0xc5, 0x1f, 0x5d, 0x4e, 0x79, 0x9c, 0xb3,
    0x8c, 0x6e, 0xf6, 0x46, 0x98, 0xf1, 0xa0, 0x4e, 0xc7, 0x17, 0x2c, 0x16, 0xf4, 0xe7, 0x35, 0x47,
    0xbe, 0x3f, 0x53, 0x0d, 0xda, 0xf1, 0x7c, 0xa6, 0xbc, 0x9a, 0x34, 0x60, 0xca, 0x5b, 0x77, 0xdb,
    0xaf, 0xb4, 0xbb, 0x67, 0x84, 0xde, 0xb9, 0xf4, 0x46, 0xa7, 0x54, 0x8c, 0x66, 0x13, 0xd0, 0x75,
    0xe2, 0x05, 0xa0, 0x54, 0x13, 0x92, 0xdc, 0x73, 0x52, 0xa9, 0x43, 0x98, 0x74, 0x1b, 0x2f, 0xb8,
    0xdb, 0xca, 0x6b, 0x5c, 0xf5, 0xc0, 0x5d, 0xcf, 0x1b, 0x47, 0xdc, 0xa5, 0x68, 0xa5, 0x83, 0xba,
    0xc4, 0x30, 0x47, 0x97, 0x10, 0x64, 0x45, 0xb6, 0xb6, 0x2a, 0xe2, 0xab, 0x54, 0xb5, 0x21, 0x71,
];
const KEY_B_P: [u8; 64] = [
    0xe5, 0xde, 0x10, 0x67, 0xad, 0x89, 0xa6, 0x20, 0xf4, 0xc9, 0x5a, 0x52, 0x5d, 0xdf, 0x8c, 0x18,
    0x73, 0x64, 0x01, 0x6c, 0x92, 0x65, 0x67, 0xe9, 0xa8, 0xaa, 0xce, 0xb8, 0x0c, 0xa4, 0xed, 0x12,
    0x62, 0xed, 0x35, 0x22, 0x13, 0xde, 0xc2, 0x59, 0x95, 0x92, 0x37, 0x72, 0x23, 0xb4, 0x8e, 0xcf,
    0x51, 0xe4, 0xa0, 0xaa, 0x67, 0xc4, 0xc0, 0x2f, 0xb1, 0xed, 0x47, 0xce, 0xc4, 0x32, 0xfa, 0xed,
];
const KEY_B_Q: [u8; 64] = [
    0xf6, 0x9c, 0x5d, 0x3b, 0xa9, 0xe9, 0x02, 0x7b, 0xab, 0xc1, 0xf8, 0x00, 0xc0, 0x2f, 0xeb, 0x2e,
    0xcd, 0x51, 0x31, 0x76, 0x42, 0xbd, 0x47, 0xff, 0x30, 0x1e, 0x00, 0xaa, 0xb1, 0xb3, 0xe5, 0xad,
    0x2c, 0x47, 0x22, 0x2b, 0x53, 0x56, 0x4d, 0xb3, 0x6d, 0x2d, 0x79, 0xc1, 0x8d, 0xb0, 0xf1, 0xf4,
    0x43, 0xa4, 0xb2, 0xa8, 0x48, 0xbd, 0x18, 0xa1, 0xf1, 0x1e, 0x86, 0x69, 0x20, 0x35, 0x67, 0x79,
];
const SMALL_N: [u8; 65] = [
    0xb0, 0x46, 0x38, 0xc0, 0x2a, 0x64, 0x14, 0xdc, 0x21, 0x83, 0x83, 0x7b, 0x4b, 0xd2, 0x0e, 0xb7,
    0xcc, 0x49, 0xf1, 0x45, 0x78, 0x01, 0x8b, 0x57, 0xe4, 0xd9, 0x01, 0x8a, 0x2a, 0x66, 0x2e, 0x63,
    0x17, 0x01, 0xbe, 0x96, 0xd3, 0xb8, 0xf6, 0x09, 0x42, 0x4c, 0x8b, 0x5f, 0xd6, 0x46, 0x6f, 0xb9,
    0x6b, 0x39, 0x87, 0x40, 0xce, 0x23, 0xf7, 0xdc, 0x43, 0xe7, 0xd1, 0xcb, 0x3c, 0xdd, 0x86, 0x36,
    0xf1,
];

fn private_a() -> PrivateKey {
    PrivateKey {
        modulus: KEY_A_N.to_vec(),
        public_exponent: vec![1, 0, 1],
        private_exponent: KEY_A_D.to_vec(),
        primes: vec![KEY_A_P.to_vec(), KEY_A_Q.to_vec()],
    }
}

fn private_b() -> PrivateKey {
    PrivateKey {
        modulus: KEY_B_N.to_vec(),
        public_exponent: vec![1, 0, 1],
        private_exponent: KEY_B_D.to_vec(),
        primes: vec![KEY_B_P.to_vec(), KEY_B_Q.to_vec()],
    }
}

fn payload_of(len: usize) -> Vec<u8> {
    let mut bytes = Vec::with_capacity(len);
    for i in 0..len {
        bytes.push((i * 31 + 7) as u8);
    }
    bytes
}

fn round_trip(len: usize) {
    let key = private_a();
    let public = key.public_key();
    let size = public.size();
    let chunk = size - OAEP_OVERHEAD;
    let payload = payload_of(len);
    let sealed = encrypt_payload(&public, &payload).unwrap();
    assert_eq!(sealed.len(), ((len + chunk - 1) / chunk) * size);
    let opened = decrypt_payload(&key, &sealed).unwrap();
    assert_eq!(opened, payload);
}

#[test]
fn key_size_and_chunk_size() {
    let public = private_a().public_key();
    assert_eq!(public.size(), 128);
    assert_eq!(private_a().size(), 128);
    assert_eq!(public.size() - OAEP_OVERHEAD, 62);
}

#[test]
fn significant_len_skips_leading_zeros() {
    assert_eq!(significant_len(&[]), 0);
    assert_eq!(significant_len(&[0, 0, 0]), 0);
    assert_eq!(significant_len(&[0, 0, 1, 0]), 2);
    assert_eq!(significant_len(&[9, 0, 0]), 3);
}

#[test]
fn key_size_ignores_leading_zero_bytes() {
    let mut modulus = vec![0u8, 0u8];
    modulus.extend_from_slice(&KEY_A_N);
    let key = PublicKey { modulus, exponent: vec![0, 1, 0, 1] };
    assert_eq!(key.size(), 128);
    let payload = payload_of(5);
    let sealed = encrypt_payload(&key, &payload).unwrap();
    assert_eq!(sealed.len(), 128);
    assert_eq!(decrypt_payload(&private_a(), &sealed).unwrap(), payload);
}

#[test]
fn round_trip_of_empty_payload() {
    round_trip(0);
    let sealed = encrypt_payload(&private_a().public_key(), &[]).unwrap();
    assert!(sealed.is_empty());
}

#[test]
fn round_trip_of_one_byte() {
    round_trip(1);
}

#[test]
fn round_trip_of_chunk_size_minus_one() {
    round_trip(61);
}

#[test]
fn round_trip_of_chunk_size() {
    round_trip(62);
}

#[test]
fn round_trip_of_chunk_size_plus_one() {
    round_trip(63);
}

#[test]
fn round_trip_of_ten_chunks() {
    round_trip(620);
}

#[test]
fn ciphertext_holds_one_block_per_chunk() {
    let public = private_a().public_key();
    assert_eq!(encrypt_payload(&public, &payload_of(1)).unwrap().len(), 128);
    assert_eq!(encrypt_payload(&public, &payload_of(62)).unwrap().len(), 128);
    assert_eq!(encrypt_payload(&public, &payload_of(63)).unwrap().len(), 256);
    assert_eq!(encrypt_payload(&public, &payload_of(124)).unwrap().len(), 256);
    assert_eq!(encrypt_payload(&public, &payload_of(125)).unwrap().len(), 384);
}

#[test]
fn encryption_is_randomized() {
    let public = private_a().public_key();
    let payload = payload_of(40);
    let first = encrypt_payload(&public, &payload).unwrap();
    let second = encrypt_payload(&public, &payload).unwrap();
    assert_ne!(first, second);
    assert_eq!(decrypt_payload(&private_a(), &first).unwrap(), payload);
    assert_eq!(decrypt_payload(&private_a(), &second).unwrap(), payload);
}

#[test]
fn ciphertext_is_not_the_payload() {
    let public = private_a().public_key();
    let payload = payload_of(62);
    let sealed = encrypt_payload(&public, &payload).unwrap();
    assert_ne!(&sealed[..62], &payload[..]);
}

#[test]
fn other_recipient_cannot_decrypt() {
    let payload = payload_of(100);
    let for_a = encrypt_payload(&private_a().public_key(), &payload).unwrap();
    let for_b = encrypt_payload(&private_b().public_key(), &payload).unwrap();
    assert_ne!(for_a, for_b);
    assert_eq!(decrypt_payload(&private_b(), &for_a), Err(StoreError::CryptoError));
    assert_eq!(decrypt_payload(&private_a(), &for_b), Err(StoreError::CryptoError));
    assert_eq!(decrypt_payload(&private_a(), &for_a).unwrap(), payload);
    assert_eq!(decrypt_payload(&private_b(), &for_b).unwrap(), payload);
}

#[test]
fn corrupted_ciphertext_is_a_crypto_error() {
    let payload = payload_of(70);
    let mut sealed = encrypt_payload(&private_a().public_key(), &payload).unwrap();
    sealed[200] ^= 0x01;
    assert_eq!(decrypt_payload(&private_a(), &sealed), Err(StoreError::CryptoError));
}

#[test]
fn ciphertext_of_partial_block_is_a_crypto_error() {
    let payload = payload_of(70);
    let mut sealed = encrypt_payload(&private_a().public_key(), &payload).unwrap();
    sealed.pop();
    assert_eq!(decrypt_payload(&private_a(), &sealed), Err(StoreError::CryptoError));
    assert_eq!(decrypt_payload(&private_a(), &[1, 2, 3]), Err(StoreError::CryptoError));
}

#[test]
fn chunks_of_a_payload() {
    let payload = payload_of(10);
    assert_eq!(chunk_at(&payload, 0, 4), &payload[0..4]);
    assert_eq!(chunk_at(&payload, 4, 4), &payload[4..8]);
    assert_eq!(chunk_at(&payload, 8, 4), &payload[8..10]);
    assert_eq!(chunk_at(&payload, 6, 4), &payload[6..10]);
    assert_eq!(chunk_at(&payload, 10, 4), &payload[0..0]);
    assert_eq!(chunk_at(&payload, 11, 4), &payload[0..0]);
    assert_eq!(chunk_at(&payload, 3, 0), &payload[0..0]);
    assert_eq!(chunk_at(&payload, 0, usize::MAX), &payload[..]);
    assert_eq!(chunk_at(&payload, 9, usize::MAX), &payload[9..]);
    assert_eq!(chunk_at(&[], 0, 4), &payload[0..0]);
}

#[test]
fn each_block_opens_to_its_chunk() {
    let payload = payload_of(150);
    let sealed = encrypt_payload(&private_a().public_key(), &payload).unwrap();
    assert_eq!(sealed.len(), 3 * 128);
    for i in 0..3 {
        let block = &sealed[i * 128..(i + 1) * 128];
        assert_eq!(decrypt_payload(&private_a(), block).unwrap(), chunk_at(&payload, i * 62, 62));
    }
}

#[test]
fn empty_payload_is_encrypted_without_a_look_at_the_key() {
    let mut modulus = KEY_A_N.to_vec();
    modulus[127] &= 0xfe;
    let even = PublicKey { modulus, exponent: vec![1, 0, 1] };
    assert_eq!(encrypt_payload(&even, &[]), Ok(vec![]));
    assert_eq!(encrypt_payload(&even, &[1]), Err(StoreError::CryptoError));
    assert_eq!(encrypt_payload(&private_a().public_key(), &[]), Ok(vec![]));
}

#[test]
fn accepted_key_encrypts_every_payload() {
    let public = private_a().public_key();
    for len in [1usize, 2, 61, 62, 63, 123, 124, 125, 1000] {
        assert!(encrypt_payload(&public, &payload_of(len)).is_ok());
    }
}

#[test]
fn undersized_key_is_a_crypto_error() {
    let key = PublicKey { modulus: SMALL_N.to_vec(), exponent: vec![1, 0, 1] };
    assert_eq!(key.size(), 65);
    assert_eq!(encrypt_payload(&key, &payload_of(3)), Err(StoreError::CryptoError));
    assert_eq!(encrypt_payload(&key, &[]), Err(StoreError::CryptoError));
}

#[test]
fn malformed_key_is_a_crypto_error() {
    let mut modulus = KEY_A_N.to_vec();
    let last = modulus.len() - 1;
    modulus[last] &= 0xfe;
    let even = PublicKey { modulus, exponent: vec![1, 0, 1] };
    assert_eq!(encrypt_payload(&even, &payload_of(3)), Err(StoreError::CryptoError));
    let empty = PublicKey { modulus: vec![], exponent: vec![] };
    assert_eq!(encrypt_payload(&empty, &payload_of(3)), Err(StoreError::CryptoError));
}

#[test]
fn unusable_private_key_is_a_crypto_error() {
    let sealed = encrypt_payload(&private_a().public_key(), &payload_of(10)).unwrap();
    let mut key = private_a();
    key.primes = vec![KEY_B_P.to_vec(), KEY_B_Q.to_vec()];
    assert_eq!(decrypt_payload(&key, &sealed), Err(StoreError::CryptoError));
}

#[test]
fn key_without_primes_is_a_crypto_error() {
    let sealed = encrypt_payload(&private_a().public_key(), &payload_of(10)).unwrap();
    let mut key = private_a();
    key.primes = vec![];
    assert_eq!(decrypt_payload(&key, &sealed), Err(StoreError::CryptoError));
    key.primes = vec![KEY_A_P.to_vec()];
    assert_eq!(decrypt_payload(&key, &sealed), Err(StoreError::CryptoError));
}

#[test]
fn empty_ciphertext_opens_to_empty_payload() {
    assert_eq!(decrypt_payload(&private_a(), &[]), Ok(vec![]));
}

#[test]
fn append_sealed_appends_a_block() {
    let mut out = vec![1u8, 2];
    assert_eq!(append_sealed(&mut out, Ok(vec![3, 4, 5])), Ok(()));
    assert_eq!(out, vec![1, 2, 3, 4, 5]);
}

#[test]
fn append_sealed_reports_a_failure() {
    let mut out = vec![1u8, 2];
    assert_eq!(
        append_sealed(&mut out, Err(rsa::Error::MessageTooLong)),
        Err(StoreError::CryptoError)
    );
    assert_eq!(out, vec![1, 2]);
}

#[test]
fn pem_keys_are_read() {
    let key = rsa::RsaPrivateKey::from_components(
        rsa::BigUint::from_bytes_be(&KEY_A_N),
        rsa::BigUint::from_bytes_be(&[1, 0, 1]),
        rsa::BigUint::from_bytes_be(&KEY_A_D),
        vec![rsa::BigUint::from_bytes_be(&KEY_A_P), rsa::BigUint::from_bytes_be(&KEY_A_Q)],
    )
    .unwrap();
    let private_pem =
        rsa::pkcs1::EncodeRsaPrivateKey::to_pkcs1_pem(&key, rsa::pkcs1::LineEnding::LF).unwrap();
    let public_pem = rsa::pkcs1::EncodeRsaPublicKey::to_pkcs1_pem(
        &key.to_public_key(),
        rsa::pkcs1::LineEnding::LF,
    )
    .unwrap();
    let private = PrivateKey::from_pem(&private_pem).unwrap();
    let public = PublicKey::from_pem(&public_pem).unwrap();
    assert_eq!(private.modulus, KEY_A_N.to_vec());
    assert_eq!(private.public_exponent, vec![1, 0, 1]);
    assert_eq!(private.private_exponent, KEY_A_D.to_vec());
    assert_eq!(private.primes, vec![KEY_A_P.to_vec(), KEY_A_Q.to_vec()]);
    assert_eq!(public.modulus, KEY_A_N.to_vec());
    assert_eq!(public.exponent, vec![1, 0, 1]);
    let payload = payload_of(90);
    let sealed = encrypt_payload(&public, &payload).unwrap();
    assert_eq!(decrypt_payload(&private, &sealed).unwrap(), payload);
}

#[test]
fn text_that_is_no_pem_key_is_a_crypto_error() {
    assert!(matches!(PublicKey::from_pem("not a key"), Err(StoreError::CryptoError)));
    assert!(matches!(PrivateKey::from_pem(""), Err(StoreError::CryptoError)));
}
