//! Reading a block back from its byte form.

use vstd::prelude::*;
use crate::block::{opt_text, texts, Block, BlockContent, BlockView};
use crate::codec::{block_bytes, ARRAY_CLOSE, ARRAY_OPEN, BACKSLASH, COMMA, QUOTE, ZERO};
use crate::error::StoreError;
use crate::grammar::{
    digits_end, digits_value, has_at, lemma_parse_block_exact, parse_array, parse_block,
    parse_decimal, parse_entries, parse_optional, parse_raw, parse_text, unescape_at,
};
use crate::text::{ascii_bytes, str_bytes, utf8_text};

verus! {

/// Whether `lit` stands in `bytes` at `pos`.
fn starts_with(bytes: &[u8], pos: usize, lit: &[u8]) -> (yes: bool)
    requires
        pos <= bytes.len(),
    ensures
        yes == has_at(bytes@, pos as int, lit@),
{
    if lit.len() > bytes.len() - pos {
        return false;
    }
    let mut i: usize = 0;
    while i < lit.len()
        invariant
            0 <= i <= lit.len(),
            pos + lit.len() <= bytes.len(),
            forall|k: int| 0 <= k < i ==> bytes@[pos + k] == lit@[k],
        decreases lit.len() - i,
    {
        if bytes[pos + i] != lit[i] {
            assert(bytes@.subrange(pos as int, pos + lit.len())[i as int] != lit@[i as int]);
            return false;
        }
        i += 1;
    }
    assert(bytes@.subrange(pos as int, pos + lit.len()) =~= lit@);
    true
}

/// Whether the text `lit` stands in `bytes` at `pos`.
fn starts_with_text(bytes: &[u8], pos: usize, lit: &str) -> (yes: bool)
    requires
        pos <= bytes.len(),
        lit.is_ascii(),
    ensures
        yes == has_at(bytes@, pos as int, ascii_bytes(lit@)),
        yes ==> pos + lit@.len() <= bytes.len(),
{
    starts_with(bytes, pos, str_bytes(lit))
}

/// The byte of a text that stands at `pos` and the position behind it.
fn read_escaped(bytes: &[u8], pos: usize) -> (r: Option<(u8, usize)>)
    requires
        pos <= bytes.len(),
    ensures
        match r {
            Some((b, next)) => unescape_at(bytes@, pos as int) == Some((b, next as int)) && pos
                < next <= bytes.len(),
            None => unescape_at(bytes@, pos as int) is None,
        },
{
    if pos >= bytes.len() {
        return None;
    }
    let b = bytes[pos];
    if b == QUOTE || b < 32 {
        return None;
    }
    if b != BACKSLASH {
        return Some((b, pos + 1));
    }
    if bytes.len() - pos < 2 {
        return None;
    }
    let c = bytes[pos + 1];
    if c == 34 || c == 92 {
        Some((c, pos + 2))
    } else if c == 98 {
        Some((8, pos + 2))
    } else if c == 102 {
        Some((12, pos + 2))
    } else if c == 110 {
        Some((10, pos + 2))
    } else if c == 114 {
        Some((13, pos + 2))
    } else if c == 116 {
        Some((9, pos + 2))
    } else if c == 117 && bytes.len() - pos >= 6 {
        let high = bytes[pos + 4];
        let low = bytes[pos + 5];
        if bytes[pos + 2] != ZERO || bytes[pos + 3] != ZERO || (high != 48 && high != 49) {
            return None;
        }
        let digit: u8 = if 48 <= low && low <= 57 {
            low - 48
        } else if 97 <= low && low <= 102 {
            low - 87
        } else {
            return None;
        };
        let v: u8 = (high - 48) * 16 + digit;
        if v == 8 || v == 9 || v == 10 || v == 12 || v == 13 {
            None
        } else {
            Some((v, pos + 6))
        }
    } else {
        None
    }
}

/// The result of reading the rest of a text, with `head` put before the
/// bytes read.
spec fn joined_raw(head: Seq<u8>, r: Option<(Seq<u8>, int)>) -> Option<(Seq<u8>, int)> {
    match r {
        Some((rest, end)) => Some((head + rest, end)),
        None => None,
    }
}

/// The quoted text at `pos` and the position behind it.
fn read_text(bytes: &[u8], pos: usize) -> (r: Option<(String, usize)>)
    requires
        pos <= bytes.len(),
    ensures
        match r {
            Some((s, next)) => parse_text(bytes@, pos as int) == Some((s@, next as int)) && pos
                < next <= bytes.len(),
            None => parse_text(bytes@, pos as int) is None,
        },
{
    if pos >= bytes.len() || bytes[pos] != QUOTE {
        return None;
    }
    let mut raw: Vec<u8> = Vec::new();
    let mut cur: usize = pos + 1;
    proof {
        if let Some((rest, end)) = parse_raw(bytes@, cur as int) {
            assert(raw@ + rest =~= rest);
        }
    }
    loop
        invariant
            pos < cur <= bytes.len(),
            bytes@[pos as int] == QUOTE,
            joined_raw(raw@, parse_raw(bytes@, cur as int)) == parse_raw(bytes@, pos + 1),
        decreases bytes.len() - cur,
    {
        if cur >= bytes.len() {
            return None;
        }
        if bytes[cur] == QUOTE {
            let ghost whole = raw@;
            proof {
                assert(parse_raw(bytes@, cur as int) == Some((Seq::<u8>::empty(), cur + 1)));
                assert(whole + Seq::<u8>::empty() =~= whole);
                assert(parse_raw(bytes@, pos + 1) == Some((whole, cur + 1)));
            }
            return match utf8_text(raw) {
                Some(s) => {
                    proof {
                        vstd::utf8::encode_utf8_valid_utf8(s@);
                        vstd::utf8::encode_utf8_decode_utf8(s@);
                    }
                    Some((s, cur + 1))
                },
                None => None,
            };
        }
        match read_escaped(bytes, cur) {
            None => {
                return None;
            },
            Some((b, next)) => {
                proof {
                    if let Some((rest, end)) = parse_raw(bytes@, next as int) {
                        assert(raw@ + (seq![b] + rest) =~= raw@.push(b) + rest);
                    }
                }
                raw.push(b);
                cur = next;
            },
        }
    }
}

/// The result of reading entries, with `head` put before the entries
/// read.
spec fn after(head: Seq<Seq<char>>, r: Option<(Seq<Seq<char>>, int)>) -> Option<
    (Seq<Seq<char>>, int),
> {
    match r {
        Some((rest, end)) => Some((head + rest, end)),
        None => None,
    }
}

/// The array of texts at `pos` and the position behind it.
fn read_array(bytes: &[u8], pos: usize) -> (r: Option<(Vec<String>, usize)>)
    requires
        pos <= bytes.len(),
    ensures
        match r {
            Some((list, next)) => parse_array(bytes@, pos as int) == Some(
                (texts(list@), next as int),
            ) && next <= bytes.len(),
            None => parse_array(bytes@, pos as int) is None,
        },
{
    if pos >= bytes.len() || bytes[pos] != ARRAY_OPEN {
        return None;
    }
    let mut list: Vec<String> = Vec::new();
    if pos + 1 < bytes.len() && bytes[pos + 1] == ARRAY_CLOSE {
        assert(texts(list@) =~= Seq::empty());
        return Some((list, pos + 2));
    }
    let mut cur: usize = pos + 1;
    assert(after(texts(list@), parse_entries(bytes@, cur as int)) == parse_entries(
        bytes@,
        pos + 1,
    )) by {
        match parse_entries(bytes@, cur as int) {
            Some((rest, end)) => {
                assert(texts(list@) + rest =~= rest);
            },
            None => {},
        }
    }
    loop
        invariant
            pos < cur <= bytes.len(),
            parse_array(bytes@, pos as int) == parse_entries(bytes@, pos + 1),
            after(texts(list@), parse_entries(bytes@, cur as int)) == parse_entries(
                bytes@,
                pos + 1,
            ),
        decreases bytes.len() - cur,
    {
        let ghost head = texts(list@);
        match read_text(bytes, cur) {
            None => {
                return None;
            },
            Some((s, next)) => {
                let ghost t = s@;
                if next < bytes.len() && bytes[next] == ARRAY_CLOSE {
                    list.push(s);
                    assert(texts(list@) =~= head + seq![t]);
                    return Some((list, next + 1));
                } else if next < bytes.len() && bytes[next] == COMMA {
                    list.push(s);
                    proof {
                        assert(texts(list@) =~= head.push(t));
                        match parse_entries(bytes@, next + 1) {
                            Some((rest, end)) => {
                                assert(head + (seq![t] + rest) =~= head.push(t) + rest);
                            },
                            None => {},
                        }
                    }
                    cur = next + 1;
                } else {
                    return None;
                }
            },
        }
    }
}

/// The text at `pos` or its absence, and the position behind it.
fn read_optional(bytes: &[u8], pos: usize) -> (r: Option<(Option<String>, usize)>)
    requires
        pos <= bytes.len(),
    ensures
        match r {
            Some((s, next)) => parse_optional(bytes@, pos as int) == Some(
                (opt_text(s), next as int),
            ) && next <= bytes.len(),
            None => parse_optional(bytes@, pos as int) is None,
        },
{
    proof {
        reveal_strlit("null");
    }
    if starts_with_text(bytes, pos, "null") {
        return Some((None, pos + 4));
    }
    match read_text(bytes, pos) {
        Some((s, next)) => Some((Some(s), next)),
        None => None,
    }
}

/// The number written at `pos` and the position behind it.
fn read_decimal(bytes: &[u8], pos: usize) -> (r: Option<(u64, usize)>)
    requires
        pos <= bytes.len(),
    ensures
        match r {
            Some((n, next)) => parse_decimal(bytes@, pos as int) == Some((n, next as int)) && next
                <= bytes.len(),
            None => parse_decimal(bytes@, pos as int) is None,
        },
{
    let mut end: usize = pos;
    let mut value: u64 = 0;
    let mut fits: bool = true;
    assert(bytes@.subrange(pos as int, pos as int) =~= Seq::<u8>::empty());
    while end < bytes.len() && ZERO <= bytes[end] && bytes[end] <= 57
        invariant
            pos <= end <= bytes.len(),
            digits_end(bytes@, pos as int) == digits_end(bytes@, end as int),
            fits ==> value == digits_value(bytes@.subrange(pos as int, end as int)),
            !fits ==> digits_value(bytes@.subrange(pos as int, end as int)) > u64::MAX,
        decreases bytes.len() - end,
    {
        let digit: u64 = (bytes[end] - ZERO) as u64;
        proof {
            let longer = bytes@.subrange(pos as int, end + 1);
            assert(longer.drop_last() =~= bytes@.subrange(pos as int, end as int));
            assert(longer.last() == bytes@[end as int]);
        }
        if fits {
            if value > (u64::MAX - digit) / 10 {
                fits = false;
            } else {
                value = value * 10 + digit;
            }
        }
        end += 1;
    }
    assert(digits_end(bytes@, end as int) == end);
    if end > pos && (end == pos + 1 || bytes[pos] != ZERO) && fits {
        Some((value, end))
    } else {
        None
    }
}

/// The block that `bytes` stand for. Only the byte form of a block is
/// read as one: its members in their order, without a byte between them,
/// the parents ascending. Everything else fails with `CorruptEncoding`.
pub fn decode_block(bytes: &[u8]) -> (r: Result<Block, StoreError>)
    ensures
        match r {
            Ok(b) => b@.valid() && block_bytes(b@) == bytes@ && parse_block(bytes@) == Some(b@),
            Err(e) => {
                &&& e == StoreError::CorruptEncoding
                &&& parse_block(bytes@) is None
                &&& forall|v: BlockView| v.valid() ==> block_bytes(v) != bytes@
            },
        },
{
    proof {
        reveal_strlit("{\"content\":{\"encrypted\":");
        reveal_strlit(",\"plain\":");
        reveal_strlit(",\"signature\":");
        reveal_strlit("},\"parents\":");
        reveal_strlit(",\"timestamp\":");
        reveal_strlit("}");
        assert forall|v: BlockView| parse_block(bytes@) is None && v.valid() implies block_bytes(v)
            != bytes@ by {
            lemma_parse_block_exact(bytes@, v);
        }
    }
    let lit_open = "{\"content\":{\"encrypted\":";
    if !starts_with_text(bytes, 0, lit_open) {
        return Err(StoreError::CorruptEncoding);
    }
    let (encrypted, p1) = match read_array(bytes, lit_open.unicode_len()) {
        Some(x) => x,
        None => {
            return Err(StoreError::CorruptEncoding);
        },
    };
    let lit_plain = ",\"plain\":";
    if !starts_with_text(bytes, p1, lit_plain) {
        return Err(StoreError::CorruptEncoding);
    }
    let (plain, p2) = match read_optional(bytes, p1 + lit_plain.unicode_len()) {
        Some(x) => x,
        None => {
            return Err(StoreError::CorruptEncoding);
        },
    };
    let lit_signature = ",\"signature\":";
    if !starts_with_text(bytes, p2, lit_signature) {
        return Err(StoreError::CorruptEncoding);
    }
    let (signature, p3) = match read_optional(bytes, p2 + lit_signature.unicode_len()) {
        Some(x) => x,
        None => {
            return Err(StoreError::CorruptEncoding);
        },
    };
    let lit_parents = "},\"parents\":";
    if !starts_with_text(bytes, p3, lit_parents) {
        return Err(StoreError::CorruptEncoding);
    }
    let (parents, p4) = match read_array(bytes, p3 + lit_parents.unicode_len()) {
        Some(x) => x,
        None => {
            return Err(StoreError::CorruptEncoding);
        },
    };
    let lit_timestamp = ",\"timestamp\":";
    if !starts_with_text(bytes, p4, lit_timestamp) {
        return Err(StoreError::CorruptEncoding);
    }
    let (timestamp, p5) = match read_decimal(bytes, p4 + lit_timestamp.unicode_len()) {
        Some(x) => x,
        None => {
            return Err(StoreError::CorruptEncoding);
        },
    };
    if !starts_with_text(bytes, p5, "}") || p5 + 1 != bytes.len() {
        return Err(StoreError::CorruptEncoding);
    }
    let content = BlockContent { encrypted, plain, signature };
    match Block::from_parts(content, parents, timestamp) {
        Some(block) => {
            proof {
                lemma_parse_block_exact(bytes@, block@);
            }
            Ok(block)
        },
        None => Err(StoreError::CorruptEncoding),
    }
}

} // verus!
