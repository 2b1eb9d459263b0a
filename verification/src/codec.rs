//! The byte form of a block: one compact JSON object whose members stand
//! in a fixed order. These bytes are what the store keeps and what the
//! content hash is taken of.

use vstd::prelude::*;
use vstd::utf8::encode_utf8;
use crate::block::{opt_text, texts, Block, BlockView};
use crate::text::{ascii_bytes, str_bytes};

verus! {

/// The quotation mark.
pub const QUOTE: u8 = 34;

/// The backslash, which opens an escape.
pub const BACKSLASH: u8 = 92;

/// The comma between the entries of an array.
pub const COMMA: u8 = 44;

/// The bracket that opens an array.
pub const ARRAY_OPEN: u8 = 91;

/// The bracket that closes an array.
pub const ARRAY_CLOSE: u8 = 93;

/// The digit zero.
pub const ZERO: u8 = 48;

/// What stands before the list of ciphertexts.
pub open spec fn lit_open() -> Seq<u8> {
    ascii_bytes("{\"content\":{\"encrypted\":"@)
}

/// What stands between the ciphertexts and the plain text.
pub open spec fn lit_plain() -> Seq<u8> {
    ascii_bytes(",\"plain\":"@)
}

/// What stands between the plain text and the signature.
pub open spec fn lit_signature() -> Seq<u8> {
    ascii_bytes(",\"signature\":"@)
}

/// What stands between the signature and the parents.
pub open spec fn lit_parents() -> Seq<u8> {
    ascii_bytes("},\"parents\":"@)
}

/// What stands between the parents and the time.
pub open spec fn lit_timestamp() -> Seq<u8> {
    ascii_bytes(",\"timestamp\":"@)
}

/// What stands after the time.
pub open spec fn lit_close() -> Seq<u8> {
    ascii_bytes("}"@)
}

/// What stands for an absent text.
pub open spec fn lit_null() -> Seq<u8> {
    ascii_bytes("null"@)
}

/// The lowercase hexadecimal digit for `v`, where `0 <= v < 16`.
pub open spec fn hex_byte(v: int) -> u8 {
    if v < 10 {
        (48 + v) as u8
    } else {
        (87 + v) as u8
    }
}

/// How the byte `b` of a text stands between quotation marks: the
/// quotation mark and the backslash behind a backslash, a control
/// character as its letter or its number behind a backslash, every other
/// byte as it is.
pub open spec fn escape(b: u8) -> Seq<u8> {
    if b == 34 {
        seq![92u8, 34u8]
    } else if b == 92 {
        seq![92u8, 92u8]
    } else if b == 8 {
        seq![92u8, 98u8]
    } else if b == 12 {
        seq![92u8, 102u8]
    } else if b == 10 {
        seq![92u8, 110u8]
    } else if b == 13 {
        seq![92u8, 114u8]
    } else if b == 9 {
        seq![92u8, 116u8]
    } else if b < 32 {
        seq![92u8, 117u8, 48u8, 48u8, hex_byte(b as int / 16), hex_byte(b as int % 16)]
    } else {
        seq![b]
    }
}

/// The bytes of a text as they stand between quotation marks.
pub open spec fn escaped(bytes: Seq<u8>) -> Seq<u8>
    decreases bytes.len(),
{
    if bytes.len() == 0 {
        Seq::empty()
    } else {
        escape(bytes[0]) + escaped(bytes.skip(1))
    }
}

/// A text between quotation marks: its UTF-8 bytes, escaped.
pub open spec fn quoted(s: Seq<char>) -> Seq<u8> {
    seq![QUOTE] + escaped(encode_utf8(s)) + seq![QUOTE]
}

/// The quoted texts of `list`, with commas between them.
pub open spec fn joined(list: Seq<Seq<char>>) -> Seq<u8>
    decreases list.len(),
{
    if list.len() == 0 {
        Seq::empty()
    } else if list.len() == 1 {
        quoted(list[0])
    } else {
        quoted(list[0]) + seq![COMMA] + joined(list.skip(1))
    }
}

/// An array of texts.
pub open spec fn text_array(list: Seq<Seq<char>>) -> Seq<u8> {
    seq![ARRAY_OPEN] + joined(list) + seq![ARRAY_CLOSE]
}

/// A text that may be absent.
pub open spec fn optional_text(s: Option<Seq<char>>) -> Seq<u8> {
    match s {
        Some(t) => quoted(t),
        None => lit_null(),
    }
}

/// The decimal digits of `n`, without leading zeros.
pub open spec fn decimal(n: nat) -> Seq<u8>
    decreases n,
{
    if n < 10 {
        seq![(ZERO + n) as u8]
    } else {
        decimal(n / 10).push((ZERO + n % 10) as u8)
    }
}

/// The bytes that stand for the block `b`.
pub open spec fn block_bytes(b: BlockView) -> Seq<u8> {
    lit_open() + text_array(b.content.encrypted) + lit_plain() + optional_text(b.content.plain)
        + lit_signature() + optional_text(b.content.signature) + lit_parents() + text_array(
        b.parents,
    ) + lit_timestamp() + decimal(b.timestamp as nat) + lit_close()
}

/// Appending a text to a list appends its quoted form to the joined
/// texts, after a comma unless it is the first.
pub proof fn lemma_joined_push(list: Seq<Seq<char>>, s: Seq<char>)
    ensures
        joined(list.push(s)) == if list.len() == 0 {
            quoted(s)
        } else {
            joined(list) + seq![COMMA] + quoted(s)
        },
    decreases list.len(),
{
    let more = list.push(s);
    if list.len() == 0 {
        assert(more[0] == s);
    } else if list.len() == 1 {
        assert(more.skip(1) =~= seq![s]);
        assert(joined(more.skip(1)) == quoted(s));
    } else {
        lemma_joined_push(list.skip(1), s);
        assert(more.skip(1) =~= list.skip(1).push(s));
        assert(more[0] == list[0]);
        assert(joined(more) =~= joined(list) + seq![COMMA] + quoted(s));
    }
}

fn push_literal(out: &mut Vec<u8>, lit: &str)
    requires
        lit.is_ascii(),
    ensures
        final(out)@ == old(out)@ + ascii_bytes(lit@),
{
    out.extend_from_slice(str_bytes(lit));
}

/// Appending a byte to a text appends its escaped form.
pub proof fn lemma_escaped_push(bytes: Seq<u8>, b: u8)
    ensures
        escaped(bytes.push(b)) == escaped(bytes) + escape(b),
    decreases bytes.len(),
{
    let more = bytes.push(b);
    if bytes.len() == 0 {
        assert(more.skip(1) =~= Seq::<u8>::empty());
        assert(more[0] == b);
        assert(escaped(more.skip(1)) =~= Seq::<u8>::empty());
        assert(escaped(bytes) =~= Seq::<u8>::empty());
        assert(escaped(more) =~= escape(b));
    } else {
        lemma_escaped_push(bytes.skip(1), b);
        assert(more.skip(1) =~= bytes.skip(1).push(b));
        assert(more[0] == bytes[0]);
        assert(escaped(more) =~= escaped(bytes) + escape(b));
    }
}

fn push_escaped(out: &mut Vec<u8>, b: u8)
    ensures
        final(out)@ == old(out)@ + escape(b),
{
    if b == 34 || b == 92 {
        out.push(BACKSLASH);
        out.push(b);
    } else if b == 8 {
        out.push(BACKSLASH);
        out.push(98);
    } else if b == 12 {
        out.push(BACKSLASH);
        out.push(102);
    } else if b == 10 {
        out.push(BACKSLASH);
        out.push(110);
    } else if b == 13 {
        out.push(BACKSLASH);
        out.push(114);
    } else if b == 9 {
        out.push(BACKSLASH);
        out.push(116);
    } else if b < 32 {
        let high: u8 = b / 16;
        let low: u8 = b % 16;
        out.push(BACKSLASH);
        out.push(117);
        out.push(ZERO);
        out.push(ZERO);
        out.push(ZERO + high);
        out.push(
            if low < 10 {
                ZERO + low
            } else {
                87 + low
            },
        );
    } else {
        out.push(b);
    }
    assert(out@ =~= old(out)@ + escape(b));
}

fn push_quoted(out: &mut Vec<u8>, s: &str)
    ensures
        final(out)@ == old(out)@ + quoted(s@),
{
    let bytes = s.as_bytes();
    assert(bytes@ == encode_utf8(s@));
    out.push(QUOTE);
    let mut i: usize = 0;
    assert(bytes@.take(0) =~= Seq::<u8>::empty());
    while i < bytes.len()
        invariant
            0 <= i <= bytes.len(),
            out@ == old(out)@ + seq![QUOTE] + escaped(bytes@.take(i as int)),
        decreases bytes.len() - i,
    {
        push_escaped(out, bytes[i]);
        proof {
            lemma_escaped_push(bytes@.take(i as int), bytes@[i as int]);
            assert(bytes@.take(i + 1) =~= bytes@.take(i as int).push(bytes@[i as int]));
            assert(out@ =~= old(out)@ + seq![QUOTE] + escaped(bytes@.take(i + 1)));
        }
        i += 1;
    }
    out.push(QUOTE);
    proof {
        assert(bytes@.take(i as int) =~= bytes@);
        assert(out@ =~= old(out)@ + quoted(s@));
    }
}

fn push_optional(out: &mut Vec<u8>, s: &Option<String>)
    ensures
        final(out)@ == old(out)@ + optional_text(opt_text(*s)),
{
    match s {
        Some(t) => push_quoted(out, t.as_str()),
        None => {
            proof {
                reveal_strlit("null");
            }
            push_literal(out, "null");
        },
    }
}

fn push_array(out: &mut Vec<u8>, list: &Vec<String>)
    ensures
        final(out)@ == old(out)@ + text_array(texts(list@)),
{
    out.push(ARRAY_OPEN);
    let ghost all = texts(list@);
    let mut i: usize = 0;
    while i < list.len()
        invariant
            0 <= i <= list.len(),
            all == texts(list@),
            out@ == old(out)@ + seq![ARRAY_OPEN] + joined(all.take(i as int)),
        decreases list.len() - i,
    {
        if i > 0 {
            out.push(COMMA);
        }
        push_quoted(out, list[i].as_str());
        proof {
            lemma_joined_push(all.take(i as int), all[i as int]);
            assert(all.take(i + 1) =~= all.take(i as int).push(all[i as int]));
            assert(out@ =~= old(out)@ + seq![ARRAY_OPEN] + joined(all.take(i + 1)));
        }
        i += 1;
    }
    out.push(ARRAY_CLOSE);
    proof {
        assert(all.take(i as int) =~= all);
        assert(out@ =~= old(out)@ + text_array(all));
    }
}

fn push_decimal(out: &mut Vec<u8>, n: u64)
    ensures
        final(out)@ == old(out)@ + decimal(n as nat),
    decreases n,
{
    if n >= 10 {
        push_decimal(out, n / 10);
    }
    out.push(ZERO + (n % 10) as u8);
    assert(out@ =~= old(out)@ + decimal(n as nat));
}

/// The bytes that stand for `block`.
pub fn encode_block(block: &Block) -> (bytes: Vec<u8>)
    ensures
        bytes@ == block_bytes(block@),
{
    proof {
        reveal_strlit("{\"content\":{\"encrypted\":");
        reveal_strlit(",\"plain\":");
        reveal_strlit(",\"signature\":");
        reveal_strlit("},\"parents\":");
        reveal_strlit(",\"timestamp\":");
        reveal_strlit("}");
    }
    let content = block.content();
    let mut out: Vec<u8> = Vec::new();
    push_literal(&mut out, "{\"content\":{\"encrypted\":");
    push_array(&mut out, &content.encrypted);
    push_literal(&mut out, ",\"plain\":");
    push_optional(&mut out, &content.plain);
    push_literal(&mut out, ",\"signature\":");
    push_optional(&mut out, &content.signature);
    push_literal(&mut out, "},\"parents\":");
    push_array(&mut out, block.parents());
    push_literal(&mut out, ",\"timestamp\":");
    push_decimal(&mut out, block.timestamp());
    push_literal(&mut out, "}");
    assert(out@ =~= block_bytes(block@));
    out
}

} // verus!
