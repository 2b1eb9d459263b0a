//! RSA keys as the numbers they consist of, each written as big-endian
//! bytes, and their reading from PKCS#1 PEM text.

use vstd::prelude::*;
use crate::error::StoreError;

verus! {

/// An RSA public key.
#[derive(Debug, PartialEq, Eq)]
pub struct PublicKey {
    pub modulus: Vec<u8>,
    pub exponent: Vec<u8>,
}

/// An RSA private key with the prime factors of its modulus.
pub struct PrivateKey {
    pub modulus: Vec<u8>,
    pub public_exponent: Vec<u8>,
    pub private_exponent: Vec<u8>,
    pub primes: Vec<Vec<u8>>,
}

/// What a `PublicKey` holds.
pub struct PublicKeyView {
    pub modulus: Seq<u8>,
    pub exponent: Seq<u8>,
}

/// What a `PrivateKey` holds.
pub struct PrivateKeyView {
    pub modulus: Seq<u8>,
    pub public_exponent: Seq<u8>,
    pub private_exponent: Seq<u8>,
    pub primes: Seq<Seq<u8>>,
}

/// The byte strings that a list of byte vectors holds.
pub open spec fn byte_strings(list: Seq<Vec<u8>>) -> Seq<Seq<u8>> {
    Seq::new(list.len(), |i: int| list[i]@)
}

impl View for PublicKey {
    type V = PublicKeyView;

    open spec fn view(&self) -> PublicKeyView {
        PublicKeyView { modulus: self.modulus@, exponent: self.exponent@ }
    }
}

impl View for PrivateKey {
    type V = PrivateKeyView;

    open spec fn view(&self) -> PrivateKeyView {
        PrivateKeyView {
            modulus: self.modulus@,
            public_exponent: self.public_exponent@,
            private_exponent: self.private_exponent@,
            primes: byte_strings(self.primes@),
        }
    }
}

/// The index of the first byte of `bytes` at or after `from` that is not
/// zero, or the length of `bytes` where there is none.
pub open spec fn first_nonzero(bytes: Seq<u8>, from: int) -> int
    decreases bytes.len() - from,
{
    if 0 <= from < bytes.len() && bytes[from] == 0 {
        first_nonzero(bytes, from + 1)
    } else {
        from
    }
}

/// The number of bytes that the number written by `bytes` takes: the
/// length of `bytes` without its leading zeros.
pub open spec fn number_len(bytes: Seq<u8>) -> nat {
    if first_nonzero(bytes, 0) >= bytes.len() {
        0
    } else {
        (bytes.len() - first_nonzero(bytes, 0)) as nat
    }
}

impl PublicKeyView {
    /// The size of the modulus in bytes, which is the size of every
    /// ciphertext made with the key.
    pub open spec fn size(self) -> nat {
        number_len(self.modulus)
    }
}

impl PrivateKeyView {
    /// The size of the modulus in bytes.
    pub open spec fn size(self) -> nat {
        number_len(self.modulus)
    }

    /// The public key that belongs to this key.
    pub open spec fn public(self) -> PublicKeyView {
        PublicKeyView { modulus: self.modulus, exponent: self.public_exponent }
    }
}

/// The length of `bytes` without its leading zeros.
pub fn significant_len(bytes: &[u8]) -> (n: usize)
    ensures
        n == number_len(bytes@),
        n <= bytes.len(),
{
    let mut i: usize = 0;
    while i < bytes.len() && bytes[i] == 0
        invariant
            0 <= i <= bytes.len(),
            first_nonzero(bytes@, 0) == first_nonzero(bytes@, i as int),
        decreases bytes.len() - i,
    {
        i += 1;
    }
    bytes.len() - i
}

impl PublicKey {
    /// The size of the modulus in bytes.
    pub fn size(&self) -> (n: usize)
        ensures
            n == self@.size(),
    {
        significant_len(self.modulus.as_slice())
    }
}

impl PrivateKey {
    /// The size of the modulus in bytes.
    pub fn size(&self) -> (n: usize)
        ensures
            n == self@.size(),
    {
        significant_len(self.modulus.as_slice())
    }

    /// The public key that belongs to this key.
    pub fn public_key(&self) -> (key: PublicKey)
        ensures
            key@ == self@.public(),
    {
        PublicKey { modulus: self.modulus.clone(), exponent: self.public_exponent.clone() }
    }
}

/// The error of the `pkcs1` crate, as `rsa` hands it on.
#[verifier::external_type_specification]
#[verifier::external_body]
pub struct ExPkcs1Error(rsa::pkcs1::Error);

/// The public key that a PKCS#1 PEM text holds: its modulus and its
/// exponent, or nothing where the text is not such a key.
pub uninterp spec fn pkcs1_public_key(pem: Seq<char>) -> Option<(Seq<u8>, Seq<u8>)>;

/// The private key that a PKCS#1 PEM text holds: its modulus, public
/// exponent, private exponent and primes, or nothing where the text is
/// not such a key.
pub uninterp spec fn pkcs1_private_key(pem: Seq<char>) -> Option<
    (Seq<u8>, Seq<u8>, Seq<u8>, Seq<Seq<u8>>),
>;

/// Calls `rsa::pkcs1::DecodeRsaPublicKey::from_pkcs1_pem` for
/// `rsa::RsaPublicKey` and hands out the key's two numbers as big-endian
/// bytes. The outcome depends on the text alone.
#[verifier::external_body]
fn pkcs1_read_public(pem: &str) -> (r: Result<PublicKey, rsa::pkcs1::Error>)
    ensures
        match r {
            Ok(key) => pkcs1_public_key(pem@) == Some((key@.modulus, key@.exponent)),
            Err(_) => pkcs1_public_key(pem@) is None,
        },
{
    let key = <rsa::RsaPublicKey as rsa::pkcs1::DecodeRsaPublicKey>::from_pkcs1_pem(pem)?;
    Ok(
        PublicKey {
            modulus: rsa::traits::PublicKeyParts::n(&key).to_bytes_be(),
            exponent: rsa::traits::PublicKeyParts::e(&key).to_bytes_be(),
        },
    )
}

/// Calls `rsa::pkcs1::DecodeRsaPrivateKey::from_pkcs1_pem` for
/// `rsa::RsaPrivateKey` and hands out the key's numbers as big-endian
/// bytes. The outcome depends on the text alone.
#[verifier::external_body]
fn pkcs1_read_private(pem: &str) -> (r: Result<PrivateKey, rsa::pkcs1::Error>)
    ensures
        match r {
            Ok(key) => pkcs1_private_key(pem@) == Some(
                (key@.modulus, key@.public_exponent, key@.private_exponent, key@.primes),
            ),
            Err(_) => pkcs1_private_key(pem@) is None,
        },
{
    let key = <rsa::RsaPrivateKey as rsa::pkcs1::DecodeRsaPrivateKey>::from_pkcs1_pem(pem)?;
    Ok(
        PrivateKey {
            modulus: rsa::traits::PublicKeyParts::n(&key).to_bytes_be(),
            public_exponent: rsa::traits::PublicKeyParts::e(&key).to_bytes_be(),
            private_exponent: rsa::traits::PrivateKeyParts::d(&key).to_bytes_be(),
            primes: rsa::traits::PrivateKeyParts::primes(&key).iter().map(
                |p| p.to_bytes_be(),
            ).collect(),
        },
    )
}

impl PublicKey {
    /// Reads a public key from PKCS#1 PEM text. Fails with `CryptoError`
    /// where the text holds no such key.
    pub fn from_pem(pem: &str) -> (r: Result<PublicKey, StoreError>)
        ensures
            match r {
                Ok(key) => pkcs1_public_key(pem@) == Some((key@.modulus, key@.exponent)),
                Err(e) => e == StoreError::CryptoError && pkcs1_public_key(pem@) is None,
            },
    {
        match pkcs1_read_public(pem) {
            Ok(key) => Ok(key),
            Err(_) => Err(StoreError::CryptoError),
        }
    }
}

impl PrivateKey {
    /// Reads a private key from PKCS#1 PEM text. Fails with `CryptoError`
    /// where the text holds no such key.
    pub fn from_pem(pem: &str) -> (r: Result<PrivateKey, StoreError>)
        ensures
            match r {
                Ok(key) => pkcs1_private_key(pem@) == Some(
                    (key@.modulus, key@.public_exponent, key@.private_exponent, key@.primes),
                ),
                Err(e) => e == StoreError::CryptoError && pkcs1_private_key(pem@) is None,
            },
    {
        match pkcs1_read_private(pem) {
            Ok(key) => Ok(key),
            Err(_) => Err(StoreError::CryptoError),
        }
    }
}

} // verus!
