//! Filling and reading the payload envelope of a block: the payload as
//! base64 text, in the clear or encrypted for each recipient.

use vstd::prelude::*;
use crate::block::{texts, BlockContent};
use crate::cipher::{
    chunk_count, decrypt_payload, encrypt_payload, opened, rsa_key_accepted, OAEP_OVERHEAD,
};
use crate::error::StoreError;
use crate::keys::{PrivateKey, PublicKey};

verus! {

/// The base64 text of `data` in the standard alphabet, without padding.
pub uninterp spec fn base64_text(data: Seq<u8>) -> Seq<char>;

/// The bytes that the unpadded standard base64 text `text` stands for,
/// or nothing where it is no such text.
pub uninterp spec fn base64_data(text: Seq<char>) -> Option<Seq<u8>>;

/// The error of the `base64` crate's decoder.
#[verifier::external_type_specification]
#[verifier::external_body]
pub struct ExDecodeError(base64::DecodeError);

/// Calls `base64::Engine::encode` of `STANDARD_NO_PAD`. The text depends
/// on the bytes alone, and is decoded by the same engine to the bytes it
/// was made from.
#[verifier::external_body]
fn base64_encode(data: &[u8]) -> (text: String)
    ensures
        text@ == base64_text(data@),
        base64_data(text@) == Some(data@),
{
    base64::Engine::encode(&base64::engine::general_purpose::STANDARD_NO_PAD, data)
}

/// Calls `base64::Engine::decode` of `STANDARD_NO_PAD`. The outcome
/// depends on the text alone.
#[verifier::external_body]
fn base64_decode(text: &str) -> (r: Result<Vec<u8>, base64::DecodeError>)
    ensures
        match r {
            Ok(data) => base64_data(text@) == Some(data@),
            Err(_) => base64_data(text@) is None,
        },
{
    base64::Engine::decode(&base64::engine::general_purpose::STANDARD_NO_PAD, text)
}

/// The bytes that a base64 text of a block stands for. Fails with
/// `CorruptEncoding` where the text is no base64 text.
pub fn decode_text(text: &str) -> (r: Result<Vec<u8>, StoreError>)
    ensures
        match r {
            Ok(data) => base64_data(text@) == Some(data@),
            Err(e) => e == StoreError::CorruptEncoding && base64_data(text@) is None,
        },
{
    match base64_decode(text) {
        Ok(data) => Ok(data),
        Err(_) => Err(StoreError::CorruptEncoding),
    }
}

/// The base64 text of `data`, as a block holds it.
pub fn encode_text(data: &[u8]) -> (text: String)
    ensures
        text@ == base64_text(data@),
        base64_data(text@) == Some(data@),
{
    base64_encode(data)
}

/// Whether `text` is the base64 text of a ciphertext that holds one block
/// of `size` bytes for each chunk of a payload of `len` bytes.
pub open spec fn is_sealed_text(text: Seq<char>, len: nat, size: nat) -> bool {
    &&& size > OAEP_OVERHEAD
    &&& base64_data(text) matches Some(ciphertext)
    &&& ciphertext.len() == chunk_count(len, (size - OAEP_OVERHEAD) as nat) * size
}

/// Whether a payload of `len` bytes can be encrypted for the key with
/// the numbers `modulus` and `exponent`: the key takes a chunk, and it is
/// accepted as a key unless there is nothing to encrypt.
pub open spec fn can_seal(len: nat, modulus: Seq<u8>, exponent: Seq<u8>) -> bool {
    crate::keys::number_len(modulus) > OAEP_OVERHEAD && (len == 0 || rsa_key_accepted(
        modulus,
        exponent,
    ))
}

impl BlockContent {
    /// The envelope for `payload`: one ciphertext for each of the
    /// `recipients`, in their order, and the payload itself where
    /// `keep_plain` says so. Fails with `CryptoError` where the payload
    /// cannot be encrypted for a recipient, and only there.
    pub fn seal(payload: &[u8], recipients: &Vec<PublicKey>, keep_plain: bool) -> (r: Result<
        BlockContent,
        StoreError,
    >)
        ensures
            r is Ok <==> forall|i: int|
                0 <= i < recipients.len() ==> can_seal(
                    payload@.len(),
                    (#[trigger] recipients[i])@.modulus,
                    recipients[i]@.exponent,
                ),
            match r {
                Ok(content) => {
                    &&& content@.encrypted.len() == recipients.len()
                    &&& forall|i: int|
                        0 <= i < recipients.len() ==> is_sealed_text(
                            #[trigger] content@.encrypted[i],
                            payload@.len(),
                            recipients[i]@.size(),
                        )
                    &&& content@.plain == if keep_plain {
                        Some(base64_text(payload@))
                    } else {
                        None
                    }
                    &&& keep_plain ==> base64_data(content@.plain->0) == Some(payload@)
                    &&& content@.signature is None
                },
                Err(e) => e == StoreError::CryptoError,
            },
    {
        let mut encrypted: Vec<String> = Vec::new();
        let mut i: usize = 0;
        while i < recipients.len()
            invariant
                0 <= i <= recipients.len(),
                encrypted.len() == i,
                forall|k: int|
                    0 <= k < i ==> can_seal(
                        payload@.len(),
                        (#[trigger] recipients[k])@.modulus,
                        recipients[k]@.exponent,
                    ),
                forall|k: int|
                    0 <= k < i ==> is_sealed_text(
                        #[trigger] texts(encrypted@)[k],
                        payload@.len(),
                        recipients[k]@.size(),
                    ),
            decreases recipients.len() - i,
        {
            let ciphertext = match encrypt_payload(&recipients[i], payload) {
                Ok(c) => c,
                Err(e) => {
                    assert(!can_seal(
                        payload@.len(),
                        recipients[i as int]@.modulus,
                        recipients[i as int]@.exponent,
                    ));
                    return Err(e);
                },
            };
            let ghost before = texts(encrypted@);
            encrypted.push(encode_text(ciphertext.as_slice()));
            proof {
                let now = texts(encrypted@);
                assert forall|k: int| 0 <= k < i + 1 implies is_sealed_text(
                    #[trigger] now[k],
                    payload@.len(),
                    recipients[k]@.size(),
                ) by {
                    if k < i {
                        assert(now[k] == before[k]);
                    }
                }
            }
            i += 1;
        }
        let plain = if keep_plain {
            Some(encode_text(payload))
        } else {
            None
        };
        Ok(BlockContent { encrypted, plain, signature: None })
    }

    /// The payload that is stored in the clear. Fails with `NotFound`
    /// where the envelope holds none, and with `CorruptEncoding` where
    /// the stored text is no base64 text.
    pub fn plain_payload(&self) -> (r: Result<Vec<u8>, StoreError>)
        ensures
            match self@.plain {
                None => r == Err::<Vec<u8>, StoreError>(StoreError::NotFound),
                Some(text) => match base64_data(text) {
                    None => r == Err::<Vec<u8>, StoreError>(StoreError::CorruptEncoding),
                    Some(payload) => r matches Ok(found) && found@ == payload,
                },
            },
    {
        match &self.plain {
            Some(text) => decode_text(text.as_str()),
            None => Err(StoreError::NotFound),
        }
    }

    /// The payload that the ciphertext at `index` holds for `key`. Fails
    /// with `NotFound` where the envelope holds no ciphertext at `index`,
    /// with `CorruptEncoding` where the stored text is no base64 text,
    /// and with `CryptoError` where the ciphertext cannot be opened with
    /// the key.
    pub fn sealed_payload(&self, index: usize, key: &PrivateKey) -> (r: Result<Vec<u8>, StoreError>)
        ensures
            if index >= self@.encrypted.len() {
                r == Err::<Vec<u8>, StoreError>(StoreError::NotFound)
            } else {
                match base64_data(self@.encrypted[index as int]) {
                    None => r == Err::<Vec<u8>, StoreError>(StoreError::CorruptEncoding),
                    Some(ciphertext) => match opened(key@, ciphertext, key@.size()) {
                        None => r == Err::<Vec<u8>, StoreError>(StoreError::CryptoError),
                        Some(payload) => r matches Ok(found) && found@ == payload,
                    },
                }
            },
    {
        if index >= self.encrypted.len() {
            return Err(StoreError::NotFound);
        }
        let ciphertext = match decode_text(self.encrypted[index].as_str()) {
            Ok(c) => c,
            Err(e) => {
                return Err(e);
            },
        };
        decrypt_payload(key, ciphertext.as_slice())
    }
}

} // verus!
