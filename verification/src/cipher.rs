//! Encryption of a payload for one recipient: the payload is cut into
//! chunks that the key can take, each chunk is encrypted by itself with
//! RSA-OAEP over SHA3-256, and the ciphertexts are put one after the
//! other. Every ciphertext is as long as the key's modulus, which is how
//! the reader finds them again.

use vstd::prelude::*;
use vstd::slice::slice_subrange;
use crate::error::StoreError;
use crate::keys::{PrivateKey, PrivateKeyView, PublicKey, number_len};

verus! {

/// What OAEP with a 32-byte digest takes of each ciphertext: twice the
/// digest's length and two bytes.
pub const OAEP_OVERHEAD: usize = 66;

/// The number of chunks of at most `chunk` bytes that `len` bytes make.
pub open spec fn chunk_count(len: nat, chunk: nat) -> nat {
    if chunk == 0 {
        0
    } else {
        ((len + chunk - 1) / (chunk as int)) as nat
    }
}

/// The error of the `rsa` crate.
#[verifier::external_type_specification]
#[verifier::external_body]
pub struct ExRsaError(rsa::Error);

/// The plaintext that one ciphertext holds for a private key, given by
/// its numbers, or nothing where the key is unusable or the ciphertext
/// was not made for it.
pub uninterp spec fn oaep_plaintext(
    modulus: Seq<u8>,
    public_exponent: Seq<u8>,
    private_exponent: Seq<u8>,
    primes: Seq<Seq<u8>>,
    ciphertext: Seq<u8>,
) -> Option<Seq<u8>>;

/// Whether `RsaPublicKey::new` accepts the numbers `modulus` and
/// `exponent` as a public key.
pub uninterp spec fn rsa_key_accepted(modulus: Seq<u8>, exponent: Seq<u8>) -> bool;

/// Makes an `rsa::RsaPublicKey` with `RsaPublicKey::new` and calls its
/// `encrypt` with `rand::thread_rng()` and `Oaep::new::<Sha3_256>()`.
/// The ciphertext differs from call to call; where there is one, it is as
/// long as the modulus. There is one exactly where the key is accepted
/// and the chunk, with what OAEP adds to it, is no longer than the
/// modulus.
#[verifier::external_body]
fn oaep_seal(modulus: &[u8], exponent: &[u8], chunk: &[u8]) -> (r: Result<Vec<u8>, rsa::Error>)
    ensures
        match r {
            Ok(sealed) => {
                &&& sealed@.len() == number_len(modulus@)
                &&& rsa_key_accepted(modulus@, exponent@)
                &&& chunk@.len() + OAEP_OVERHEAD <= number_len(modulus@)
            },
            Err(_) => !(rsa_key_accepted(modulus@, exponent@) && chunk@.len() + OAEP_OVERHEAD
                <= number_len(modulus@)),
        },
{
    let key = rsa::RsaPublicKey::new(
        rsa::BigUint::from_bytes_be(modulus),
        rsa::BigUint::from_bytes_be(exponent),
    )?;
    key.encrypt(&mut rand::thread_rng(), rsa::Oaep::new::<sha3::Sha3_256>(), chunk)
}

/// Makes an `rsa::RsaPrivateKey` with `RsaPrivateKey::from_components`
/// and calls its `decrypt` with `Oaep::new::<Sha3_256>()`. The outcome
/// depends on the key and the ciphertext alone. A key without primes is
/// left out: for such a key `from_components` tries to find the primes,
/// with subtractions that it does not guard.
#[verifier::external_body]
fn oaep_open(key: &PrivateKey, ciphertext: &[u8]) -> (r: Result<Vec<u8>, rsa::Error>)
    requires
        key@.primes.len() > 0,
    ensures
        match r {
            Ok(plain) => oaep_plaintext(
                key@.modulus,
                key@.public_exponent,
                key@.private_exponent,
                key@.primes,
                ciphertext@,
            ) == Some(plain@),
            Err(_) => oaep_plaintext(
                key@.modulus,
                key@.public_exponent,
                key@.private_exponent,
                key@.primes,
                ciphertext@,
            ) is None,
        },
{
    let parts = rsa::RsaPrivateKey::from_components(
        rsa::BigUint::from_bytes_be(&key.modulus),
        rsa::BigUint::from_bytes_be(&key.public_exponent),
        rsa::BigUint::from_bytes_be(&key.private_exponent),
        key.primes.iter().map(|p| rsa::BigUint::from_bytes_be(p)).collect(),
    )?;
    parts.decrypt(rsa::Oaep::new::<sha3::Sha3_256>(), ciphertext)
}

/// The plaintext that `block` holds for `key`. A key that names no prime
/// opens nothing.
pub open spec fn opened_block(key: PrivateKeyView, block: Seq<u8>) -> Option<Seq<u8>> {
    if key.primes.len() == 0 {
        None
    } else {
        oaep_plaintext(key.modulus, key.public_exponent, key.private_exponent, key.primes, block)
    }
}

/// The payload that `ciphertext` holds for `key`: the plaintexts of its
/// blocks of `size` bytes, one after the other. There is none where a
/// block cannot be opened or where bytes are left that make no block.
pub open spec fn opened(key: PrivateKeyView, ciphertext: Seq<u8>, size: nat) -> Option<Seq<u8>>
    decreases ciphertext.len(),
{
    if ciphertext.len() == 0 {
        Some(Seq::empty())
    } else if size == 0 || ciphertext.len() < size {
        None
    } else {
        match opened_block(key, ciphertext.take(size as int)) {
            None => None,
            Some(first) => match opened(key, ciphertext.skip(size as int), size) {
                None => None,
                Some(rest) => Some(first + rest),
            },
        }
    }
}

/// Whether `ciphertext` holds `payload` for `key` chunk by chunk: its
/// blocks of `size` bytes open, in order, to the chunks of `chunk` bytes
/// that make `payload`, the last of which may be shorter.
pub open spec fn seals(
    key: PrivateKeyView,
    payload: Seq<u8>,
    chunk: nat,
    ciphertext: Seq<u8>,
    size: nat,
) -> bool
    decreases payload.len(),
{
    if payload.len() == 0 {
        ciphertext.len() == 0
    } else if chunk == 0 || size == 0 || ciphertext.len() < size {
        false
    } else {
        let n = if payload.len() < chunk {
            payload.len()
        } else {
            chunk
        };
        &&& opened_block(key, ciphertext.take(size as int)) == Some(payload.take(n as int))
        &&& seals(key, payload.skip(n as int), chunk, ciphertext.skip(size as int), size)
    }
}

/// Round trip: a ciphertext whose blocks open to the chunks of a payload
/// is opened as that payload, byte for byte and in its full length.
pub proof fn lemma_sealed_payload_opens(
    key: PrivateKeyView,
    payload: Seq<u8>,
    chunk: nat,
    ciphertext: Seq<u8>,
    size: nat,
)
    requires
        seals(key, payload, chunk, ciphertext, size),
    ensures
        opened(key, ciphertext, size) == Some(payload),
    decreases payload.len(),
{
    if payload.len() == 0 {
        assert(payload =~= Seq::empty());
    } else {
        let n = if payload.len() < chunk {
            payload.len()
        } else {
            chunk
        };
        lemma_sealed_payload_opens(
            key,
            payload.skip(n as int),
            chunk,
            ciphertext.skip(size as int),
            size,
        );
        assert(payload.take(n as int) + payload.skip(n as int) =~= payload);
    }
}

/// Only a ciphertext that is a whole number of blocks is opened.
pub proof fn lemma_opened_is_whole_blocks(key: PrivateKeyView, ciphertext: Seq<u8>, size: nat)
    requires
        opened(key, ciphertext, size) is Some,
        ciphertext.len() > 0,
    ensures
        size > 0,
        ciphertext.len() % size == 0,
    decreases ciphertext.len(),
{
    let rest = ciphertext.skip(size as int);
    if rest.len() > 0 {
        lemma_opened_is_whole_blocks(key, rest, size);
    }
    let n = ciphertext.len() as int;
    let k = size as int;
    assert(rest.len() == n - k);
    vstd::arithmetic::div_mod::lemma_mod_add_multiples_vanish(n - k, k);
    assert(k + (n - k) == n);
}

/// What becomes of one sealed chunk: it is put behind the ciphertexts
/// made so far, or the failure to seal it is reported as `CryptoError`.
pub fn append_sealed(out: &mut Vec<u8>, sealed: Result<Vec<u8>, rsa::Error>) -> (r: Result<
    (),
    StoreError,
>)
    ensures
        match sealed {
            Ok(block) => r is Ok && final(out)@ == old(out)@ + block@,
            Err(_) => r == Err::<(), StoreError>(StoreError::CryptoError) && final(out)@ == old(
                out,
            )@,
        },
{
    match sealed {
        Ok(block) => {
            out.extend_from_slice(block.as_slice());
            Ok(())
        },
        Err(_) => Err(StoreError::CryptoError),
    }
}

/// The chunk of at most `chunk` bytes that starts at `offset` in
/// `payload`.
pub open spec fn chunk_of(payload: Seq<u8>, offset: int, chunk: int) -> Seq<u8> {
    if 0 <= offset < payload.len() && chunk >= 0 {
        payload.subrange(
            offset,
            if offset + chunk < payload.len() {
                offset + chunk
            } else {
                payload.len() as int
            },
        )
    } else {
        Seq::empty()
    }
}

/// The chunk of at most `chunk` bytes that starts at `offset` in
/// `payload`: the part that is encrypted as one block.
pub fn chunk_at(payload: &[u8], offset: usize, chunk: usize) -> (part: &[u8])
    ensures
        part@ == chunk_of(payload@, offset as int, chunk as int),
{
    if offset >= payload.len() {
        let part = slice_subrange(payload, 0, 0);
        assert(part@ =~= Seq::<u8>::empty());
        return part;
    }
    let end: usize = if payload.len() - offset > chunk {
        offset + chunk
    } else {
        payload.len()
    };
    slice_subrange(payload, offset, end)
}

/// Encrypts `payload` for the holder of `key`: each chunk that `chunk_at`
/// gives is encrypted by itself. Fails with `CryptoError` where the key
/// is too small to take a chunk or is not accepted as a key, and only
/// there; without a payload the key is not looked at. The ciphertext
/// holds one block of the key's size for each chunk of the payload.
pub fn encrypt_payload(key: &PublicKey, payload: &[u8]) -> (r: Result<Vec<u8>, StoreError>)
    ensures
        r is Ok <==> key@.size() > OAEP_OVERHEAD && (payload@.len() == 0 || rsa_key_accepted(
            key@.modulus,
            key@.exponent,
        )),
        payload@.len() == 0 ==> (r matches Ok(ciphertext) ==> ciphertext@.len() == 0),
        match r {
            Ok(ciphertext) => {
                &&& key@.size() > OAEP_OVERHEAD
                &&& ciphertext@.len() == chunk_count(
                    payload@.len(),
                    (key@.size() - OAEP_OVERHEAD) as nat,
                ) * key@.size()
            },
            Err(e) => e == StoreError::CryptoError,
        },
{
    let size = key.size();
    if size <= OAEP_OVERHEAD {
        return Err(StoreError::CryptoError);
    }
    let chunk: usize = size - OAEP_OVERHEAD;
    let mut out: Vec<u8> = Vec::new();
    let mut offset: usize = 0;
    let ghost mut done: nat = 0;
    assert(chunk_count(0, chunk as nat) == 0) by (nonlinear_arith)
        requires
            chunk > 0,
    ;
    while offset < payload.len()
        invariant
            0 <= offset <= payload.len(),
            size == key@.size(),
            chunk == size - OAEP_OVERHEAD,
            chunk > 0,
            out@.len() == done * size,
            offset < payload.len() ==> offset == done * chunk,
            offset == payload.len() ==> done == chunk_count(payload@.len(), chunk as nat),
            offset > 0 ==> rsa_key_accepted(key@.modulus, key@.exponent),
        decreases payload.len() - offset,
    {
        let part = chunk_at(payload, offset, chunk);
        let sealed = oaep_seal(key.modulus.as_slice(), key.exponent.as_slice(), part);
        match append_sealed(&mut out, sealed) {
            Ok(()) => {},
            Err(e) => {
                return Err(e);
            },
        }
        proof {
            let len = payload@.len() as int;
            let c = chunk as int;
            let d = done as int;
            assert((d + 1) * size == d * size + size) by (nonlinear_arith);
            assert((d + 1) * c == d * c + c) by (nonlinear_arith);
            if offset + chunk >= payload.len() {
                assert((len + c - 1) / c == d + 1) by (nonlinear_arith)
                    requires
                        c > 0,
                        d * c < len,
                        len <= d * c + c,
                ;
            }
            done = done + 1;
        }
        offset = offset + part.len();
    }
    Ok(out)
}

/// The result of opening blocks, with `head` put before their plaintext.
spec fn behind(head: Seq<u8>, r: Option<Seq<u8>>) -> Option<Seq<u8>> {
    match r {
        Some(rest) => Some(head + rest),
        None => None,
    }
}

/// Decrypts `ciphertext` with `key`: block by block, each block as long
/// as the key's modulus. Fails with `CryptoError` where a block cannot
/// be opened with the key, where the key names no prime, or where the
/// ciphertext is no whole number of blocks.
pub fn decrypt_payload(key: &PrivateKey, ciphertext: &[u8]) -> (r: Result<Vec<u8>, StoreError>)
    ensures
        match r {
            Ok(payload) => opened(key@, ciphertext@, key@.size()) == Some(payload@),
            Err(e) => e == StoreError::CryptoError && opened(key@, ciphertext@, key@.size())
                is None,
        },
{
    let size = key.size();
    let mut out: Vec<u8> = Vec::new();
    let mut offset: usize = 0;
    assert(ciphertext@.skip(0) =~= ciphertext@);
    assert(behind(out@, opened(key@, ciphertext@, size as nat)) == opened(
        key@,
        ciphertext@,
        size as nat,
    )) by {
        if let Some(rest) = opened(key@, ciphertext@, size as nat) {
            assert(out@ + rest =~= rest);
        }
    }
    while offset < ciphertext.len()
        invariant
            0 <= offset <= ciphertext.len(),
            size == key@.size(),
            behind(out@, opened(key@, ciphertext@.skip(offset as int), size as nat)) == opened(
                key@,
                ciphertext@,
                size as nat,
            ),
        decreases ciphertext.len() - offset,
    {
        let ghost rest = ciphertext@.skip(offset as int);
        if size == 0 || ciphertext.len() - offset < size || key.primes.len() == 0 {
            return Err(StoreError::CryptoError);
        }
        let block = slice_subrange(ciphertext, offset, offset + size);
        assert(block@ =~= rest.take(size as int));
        assert(rest.skip(size as int) =~= ciphertext@.skip(offset + size));
        match oaep_open(key, block) {
            Ok(plain) => {
                proof {
                    if let Some(tail) = opened(key@, rest.skip(size as int), size as nat) {
                        assert(out@ + (plain@ + tail) =~= (out@ + plain@) + tail);
                    }
                }
                out.extend_from_slice(plain.as_slice());
            },
            Err(_) => {
                return Err(StoreError::CryptoError);
            },
        }
        offset = offset + size;
    }
    assert(ciphertext@.skip(offset as int) =~= Seq::<u8>::empty());
    assert(out@ + Seq::<u8>::empty() =~= out@);
    Ok(out)
}

} // verus!
