//! Content addressing: the identity of a byte string is the lowercase
//! hexadecimal text of its SHA3-256 digest.

use vstd::prelude::*;

verus! {

/// Number of bytes in a SHA3-256 digest.
pub const DIGEST_LEN: usize = 32;

/// Number of characters in the hexadecimal text of a digest.
pub const HASH_TEXT_LEN: usize = 64;

/// The lowercase hexadecimal digit for `v`, where `0 <= v < 16`.
pub open spec fn hex_digit(v: int) -> char {
    if v < 10 {
        ((v + 48) as u8) as char
    } else {
        ((v + 87) as u8) as char
    }
}

/// Lowercase hexadecimal text of `bytes`: two digits per byte, high
/// nibble first.
pub open spec fn hex_text(bytes: Seq<u8>) -> Seq<char> {
    Seq::new(
        2 * bytes.len(),
        |i: int|
            if i % 2 == 0 {
                hex_digit(bytes[i / 2] as int / 16)
            } else {
                hex_digit(bytes[i / 2] as int % 16)
            },
    )
}

/// The SHA3-256 digest of `data`.
pub uninterp spec fn sha3_256(data: Seq<u8>) -> Seq<u8>;

/// The content hash of `data`: hexadecimal text of its SHA3-256 digest.
pub open spec fn content_hash(data: Seq<u8>) -> Seq<char> {
    hex_text(sha3_256(data))
}

/// Whether `c` is one of `0-9a-f`.
pub open spec fn is_hex_char(c: char) -> bool {
    ('0' <= c && c <= '9') || ('a' <= c && c <= 'f')
}

/// Whether `text` has the shape of a content hash: 64 lowercase
/// hexadecimal digits.
pub open spec fn is_hash_text(text: Seq<char>) -> bool {
    &&& text.len() == HASH_TEXT_LEN
    &&& forall|i: int| 0 <= i < text.len() ==> is_hex_char(#[trigger] text[i])
}

/// Calls `sha3::Sha3_256::digest`. The result is the SHA3-256 digest of
/// `data`, which depends on `data` alone and is 32 bytes long.
#[verifier::external_body]
fn sha3_256_digest(data: &[u8]) -> (out: Vec<u8>)
    ensures
        out@ == sha3_256(data@),
        out@.len() == DIGEST_LEN,
{
    <sha3::Sha3_256 as sha3::Digest>::digest(data).to_vec()
}

/// Calls `hex::encode`. The result holds two lowercase hexadecimal digits
/// per input byte, the high nibble first.
#[verifier::external_body]
fn hex_encode(data: &[u8]) -> (out: String)
    ensures
        out@ == hex_text(data@),
{
    hex::encode(data)
}

/// Every character of a hexadecimal text is a lowercase hexadecimal digit.
pub proof fn lemma_hex_text_chars(bytes: Seq<u8>)
    ensures
        hex_text(bytes).len() == 2 * bytes.len(),
        forall|i: int| 0 <= i < hex_text(bytes).len() ==> is_hex_char(#[trigger] hex_text(bytes)[i]),
{
    assert forall|i: int| 0 <= i < hex_text(bytes).len() implies is_hex_char(
        #[trigger] hex_text(bytes)[i],
    ) by {
        let b = bytes[i / 2] as int;
        lemma_hex_digit_is_hex_char(b / 16);
        lemma_hex_digit_is_hex_char(b % 16);
    }
}

/// A digit below 16 is written with one of `0-9a-f`, and can be read back.
pub proof fn lemma_hex_digit_is_hex_char(v: int)
    requires
        0 <= v < 16,
    ensures
        is_hex_char(hex_digit(v)),
        hex_digit(v) as int == if v < 10 { v + 48 } else { v + 87 },
{
}

/// Hexadecimal text determines the bytes it was made from.
pub proof fn lemma_hex_text_injective(a: Seq<u8>, b: Seq<u8>)
    requires
        hex_text(a) == hex_text(b),
    ensures
        a == b,
{
    assert(hex_text(a).len() == 2 * a.len());
    assert(hex_text(b).len() == 2 * b.len());
    assert(a.len() == b.len());
    assert forall|k: int| 0 <= k < a.len() implies a[k] == b[k] by {
        let x = a[k] as int;
        let y = b[k] as int;
        assert(hex_text(a)[2 * k] == hex_digit(x / 16));
        assert(hex_text(b)[2 * k] == hex_digit(y / 16));
        assert(hex_text(a)[2 * k + 1] == hex_digit(x % 16));
        assert(hex_text(b)[2 * k + 1] == hex_digit(y % 16));
        lemma_hex_digit_is_hex_char(x / 16);
        lemma_hex_digit_is_hex_char(y / 16);
        lemma_hex_digit_is_hex_char(x % 16);
        lemma_hex_digit_is_hex_char(y % 16);
    }
    assert(a =~= b);
}

/// Byte strings share a content hash only where they share a digest: two
/// distinct blocks get the same name by a collision of SHA3-256 alone.
pub proof fn lemma_same_hash_same_digest(a: Seq<u8>, b: Seq<u8>)
    requires
        content_hash(a) == content_hash(b),
    ensures
        sha3_256(a) == sha3_256(b),
{
    lemma_hex_text_injective(sha3_256(a), sha3_256(b));
}

/// The content hash of `data`: the key under which the store files it.
pub fn hash_bytes(data: &[u8]) -> (hash: String)
    ensures
        hash@ == content_hash(data@),
        is_hash_text(hash@),
{
    let digest = sha3_256_digest(data);
    let hash = hex_encode(digest.as_slice());
    proof {
        lemma_hex_text_chars(digest@);
    }
    hash
}

} // verus!
