//! Reading the byte form of a block: what is read at each position of a
//! byte string, stated as functions of the bytes.

use vstd::prelude::*;
use vstd::utf8::{decode_utf8, encode_utf8, valid_utf8};
use crate::block::{BlockView, ContentView};
use crate::codec::{
    block_bytes, decimal, escape, escaped, hex_byte, joined, lit_close, lit_null, lit_open,
    lit_parents, lit_plain, lit_signature, lit_timestamp, optional_text, quoted, text_array,
    ARRAY_CLOSE, ARRAY_OPEN, BACKSLASH, COMMA, QUOTE, ZERO,
};

verus! {

/// Whether `lit` stands in `bytes` at `pos`.
pub open spec fn has_at(bytes: Seq<u8>, pos: int, lit: Seq<u8>) -> bool {
    &&& 0 <= pos
    &&& pos + lit.len() <= bytes.len()
    &&& bytes.subrange(pos, pos + lit.len()) == lit
}

/// Whether `b` is a decimal digit.
pub open spec fn is_digit_byte(b: u8) -> bool {
    ZERO <= b && b <= 57
}

/// The end of the longest run of digits that starts at `from`.
pub open spec fn digits_end(bytes: Seq<u8>, from: int) -> int
    decreases bytes.len() - from,
{
    if 0 <= from < bytes.len() && is_digit_byte(bytes[from]) {
        digits_end(bytes, from + 1)
    } else {
        from
    }
}

/// The number that the digits `ds` write.
pub open spec fn digits_value(ds: Seq<u8>) -> nat
    decreases ds.len(),
{
    if ds.len() == 0 {
        0
    } else {
        digits_value(ds.drop_last()) * 10 + (ds.last() - ZERO) as nat
    }
}

/// Whether `d` is one of `0-9a-f`.
pub open spec fn is_lower_hex(d: u8) -> bool {
    (48 <= d && d <= 57) || (97 <= d && d <= 102)
}

/// The number that the hexadecimal digit `d` stands for.
pub open spec fn hex_value(d: u8) -> int {
    if d <= 57 {
        d - 48
    } else {
        d - 87
    }
}

/// Whether the control character `b` is written as a letter behind a
/// backslash.
pub open spec fn has_letter_escape(b: u8) -> bool {
    b == 8 || b == 9 || b == 10 || b == 12 || b == 13
}

/// The byte of a text that stands at `pos`, escaped or as it is, and the
/// position behind it. Only the one way of writing each byte is read.
pub open spec fn unescape_at(bytes: Seq<u8>, pos: int) -> Option<(u8, int)> {
    if !(0 <= pos < bytes.len()) {
        None
    } else {
        let b = bytes[pos];
        if b == QUOTE || b < 32 {
            None
        } else if b != BACKSLASH {
            Some((b, pos + 1))
        } else if pos + 1 >= bytes.len() {
            None
        } else {
            let c = bytes[pos + 1];
            if c == 34 {
                Some((34u8, pos + 2))
            } else if c == 92 {
                Some((92u8, pos + 2))
            } else if c == 98 {
                Some((8u8, pos + 2))
            } else if c == 102 {
                Some((12u8, pos + 2))
            } else if c == 110 {
                Some((10u8, pos + 2))
            } else if c == 114 {
                Some((13u8, pos + 2))
            } else if c == 116 {
                Some((9u8, pos + 2))
            } else if c == 117 && pos + 6 <= bytes.len() && bytes[pos + 2] == 48 && bytes[pos + 3]
                == 48 && (bytes[pos + 4] == 48 || bytes[pos + 4] == 49) && is_lower_hex(
                bytes[pos + 5],
            ) {
                let v = ((bytes[pos + 4] - 48) * 16 + hex_value(bytes[pos + 5])) as u8;
                if has_letter_escape(v) {
                    None
                } else {
                    Some((v, pos + 6))
                }
            } else {
                None
            }
        }
    }
}

/// The bytes of the text that stands from `pos` up to the closing
/// quotation mark, and the position behind that mark.
pub open spec fn parse_raw(bytes: Seq<u8>, pos: int) -> Option<(Seq<u8>, int)>
    decreases bytes.len() - pos,
{
    if !(0 <= pos < bytes.len()) {
        None
    } else if bytes[pos] == QUOTE {
        Some((Seq::empty(), pos + 1))
    } else {
        match unescape_at(bytes, pos) {
            None => None,
            Some((b, next)) => if next > pos {
                match parse_raw(bytes, next) {
                    None => None,
                    Some((rest, end)) => Some((seq![b] + rest, end)),
                }
            } else {
                None
            },
        }
    }
}

/// The quoted text at `pos`, and the position behind it.
pub open spec fn parse_text(bytes: Seq<u8>, pos: int) -> Option<(Seq<char>, int)> {
    if 0 <= pos < bytes.len() && bytes[pos] == QUOTE {
        match parse_raw(bytes, pos + 1) {
            None => None,
            Some((raw, next)) => if valid_utf8(raw) {
                Some((decode_utf8(raw), next))
            } else {
                None
            },
        }
    } else {
        None
    }
}

/// The texts of an array from `pos` on, where `pos` is the start of an
/// entry, and the position behind the closing bracket. A quoted text
/// takes at least two bytes, so every entry read moves the position on.
pub open spec fn parse_entries(bytes: Seq<u8>, pos: int) -> Option<(Seq<Seq<char>>, int)>
    decreases bytes.len() - pos,
{
    match parse_text(bytes, pos) {
        None => None,
        Some((s, next)) => {
            if next < bytes.len() && bytes[next] == ARRAY_CLOSE {
                Some((seq![s], next + 1))
            } else if next < bytes.len() && bytes[next] == COMMA && next > pos {
                match parse_entries(bytes, next + 1) {
                    None => None,
                    Some((rest, end)) => Some((seq![s] + rest, end)),
                }
            } else {
                None
            }
        },
    }
}

/// The array of texts at `pos`, and the position behind it.
pub open spec fn parse_array(bytes: Seq<u8>, pos: int) -> Option<(Seq<Seq<char>>, int)> {
    if 0 <= pos < bytes.len() && bytes[pos] == ARRAY_OPEN {
        if pos + 1 < bytes.len() && bytes[pos + 1] == ARRAY_CLOSE {
            Some((Seq::empty(), pos + 2))
        } else {
            parse_entries(bytes, pos + 1)
        }
    } else {
        None
    }
}

/// The text at `pos` or its absence, and the position behind it.
pub open spec fn parse_optional(bytes: Seq<u8>, pos: int) -> Option<(Option<Seq<char>>, int)> {
    if has_at(bytes, pos, lit_null()) {
        Some((None, pos + lit_null().len()))
    } else {
        match parse_text(bytes, pos) {
            None => None,
            Some((s, next)) => Some((Some(s), next)),
        }
    }
}

/// The number written at `pos` without leading zeros, where it fits in
/// 64 bits, and the position behind it.
pub open spec fn parse_decimal(bytes: Seq<u8>, pos: int) -> Option<(u64, int)> {
    let end = digits_end(bytes, pos);
    let ds = bytes.subrange(pos, end);
    if 0 <= pos < end && (end == pos + 1 || bytes[pos] != ZERO) && digits_value(ds) <= u64::MAX {
        Some((digits_value(ds) as u64, end))
    } else {
        None
    }
}

/// The members of a block record read one after the other from the
/// start of `bytes`, where they fill it.
pub open spec fn parse_record(bytes: Seq<u8>) -> Option<BlockView> {
    if !has_at(bytes, 0, lit_open()) {
        None
    } else {
        match parse_array(bytes, lit_open().len() as int) {
            None => None,
            Some((encrypted, p1)) => if !has_at(bytes, p1, lit_plain()) {
                None
            } else {
                match parse_optional(bytes, p1 + lit_plain().len()) {
                    None => None,
                    Some((plain, p2)) => if !has_at(bytes, p2, lit_signature()) {
                        None
                    } else {
                        match parse_optional(bytes, p2 + lit_signature().len()) {
                            None => None,
                            Some((signature, p3)) => if !has_at(bytes, p3, lit_parents()) {
                                None
                            } else {
                                match parse_array(bytes, p3 + lit_parents().len()) {
                                    None => None,
                                    Some((parents, p4)) => if !has_at(
                                        bytes,
                                        p4,
                                        lit_timestamp(),
                                    ) {
                                        None
                                    } else {
                                        match parse_decimal(bytes, p4 + lit_timestamp().len()) {
                                            None => None,
                                            Some((timestamp, p5)) => if has_at(
                                                bytes,
                                                p5,
                                                lit_close(),
                                            ) && p5 + lit_close().len() == bytes.len() {
                                                Some(
                                                    BlockView {
                                                        content: ContentView {
                                                            encrypted,
                                                            plain,
                                                            signature,
                                                        },
                                                        parents,
                                                        timestamp,
                                                    },
                                                )
                                            } else {
                                                None
                                            },
                                        }
                                    },
                                }
                            },
                        }
                    },
                }
            },
        }
    }
}

/// The valid block that `bytes` stand for, if there is one.
pub open spec fn parse_block(bytes: Seq<u8>) -> Option<BlockView> {
    match parse_record(bytes) {
        Some(b) => if b.valid() {
            Some(b)
        } else {
            None
        },
        None => None,
    }
}

/// The run of digits from `from` ends within the bytes, holds digits
/// only, and stops at the first byte that is none.
pub proof fn lemma_digits_end(bytes: Seq<u8>, from: int)
    requires
        0 <= from <= bytes.len(),
    ensures
        from <= digits_end(bytes, from) <= bytes.len(),
        forall|k: int| from <= k < digits_end(bytes, from) ==> is_digit_byte(#[trigger] bytes[k]),
        digits_end(bytes, from) == bytes.len() || !is_digit_byte(bytes[digits_end(bytes, from)]),
    decreases bytes.len() - from,
{
    if from < bytes.len() && is_digit_byte(bytes[from]) {
        lemma_digits_end(bytes, from + 1);
    }
}

/// A run of digits that stops at `end` is the longest one.
pub proof fn lemma_digits_end_is(bytes: Seq<u8>, from: int, end: int)
    requires
        0 <= from <= end <= bytes.len(),
        forall|k: int| from <= k < end ==> is_digit_byte(#[trigger] bytes[k]),
        end == bytes.len() || !is_digit_byte(bytes[end]),
    ensures
        digits_end(bytes, from) == end,
    decreases end - from,
{
    if from < end {
        assert(is_digit_byte(bytes[from]));
        lemma_digits_end_is(bytes, from + 1, end);
    }
}

/// Where `a + b` stands at `pos`, `a` stands there and `b` behind it.
pub proof fn lemma_has_at_split(bytes: Seq<u8>, pos: int, a: Seq<u8>, b: Seq<u8>)
    requires
        has_at(bytes, pos, a + b),
    ensures
        has_at(bytes, pos, a),
        has_at(bytes, pos + a.len(), b),
{
    let whole = bytes.subrange(pos, pos + (a + b).len());
    assert(bytes.subrange(pos, pos + a.len()) =~= whole.subrange(0, a.len() as int));
    assert(whole.subrange(0, a.len() as int) =~= a);
    assert(bytes.subrange(pos + a.len(), pos + a.len() + b.len()) =~= whole.subrange(
        a.len() as int,
        (a + b).len() as int,
    ));
    assert(whole.subrange(a.len() as int, (a + b).len() as int) =~= b);
}

/// Where `a` stands at `pos` and `b` behind it, `a + b` stands at `pos`.
pub proof fn lemma_has_at_join(bytes: Seq<u8>, pos: int, a: Seq<u8>, b: Seq<u8>)
    requires
        has_at(bytes, pos, a),
        has_at(bytes, pos + a.len(), b),
    ensures
        has_at(bytes, pos, a + b),
{
    assert(bytes.subrange(pos, pos + (a + b).len()) =~= bytes.subrange(pos, pos + a.len())
        + bytes.subrange(pos + a.len(), pos + a.len() + b.len()));
}

/// The byte at index `k` of what stands at `pos`.
pub proof fn lemma_has_at_index(bytes: Seq<u8>, pos: int, lit: Seq<u8>, k: int)
    requires
        has_at(bytes, pos, lit),
        0 <= k < lit.len(),
    ensures
        bytes[pos + k] == lit[k],
{
    assert(bytes.subrange(pos, pos + lit.len())[k] == lit[k]);
}

/// What is read as one byte of a text is the escaped form of that byte.
pub proof fn lemma_unescape_sound(bytes: Seq<u8>, pos: int)
    requires
        unescape_at(bytes, pos) is Some,
    ensures
        ({
            let (b, next) = unescape_at(bytes, pos)->0;
            &&& pos < next <= bytes.len()
            &&& next == pos + escape(b).len()
            &&& has_at(bytes, pos, escape(b))
        }),
{
    let (b, next) = unescape_at(bytes, pos)->0;
    if bytes[pos] == BACKSLASH && bytes[pos + 1] == 117 {
        let d = bytes[pos + 5];
        assert(hex_byte(b as int % 16) == d);
        assert(hex_byte(b as int / 16) == bytes[pos + 4]);
    }
    assert(bytes.subrange(pos, next) =~= escape(b));
}

/// The escaped form of a byte is read as that byte.
pub proof fn lemma_unescape_complete(bytes: Seq<u8>, pos: int, b: u8)
    requires
        has_at(bytes, pos, escape(b)),
    ensures
        unescape_at(bytes, pos) == Some((b, pos + escape(b).len())),
{
    let e = escape(b);
    lemma_has_at_index(bytes, pos, e, 0);
    if e.len() >= 2 {
        lemma_has_at_index(bytes, pos, e, 1);
    }
    if e.len() == 6 {
        lemma_has_at_index(bytes, pos, e, 2);
        lemma_has_at_index(bytes, pos, e, 3);
        lemma_has_at_index(bytes, pos, e, 4);
        lemma_has_at_index(bytes, pos, e, 5);
        let d = bytes[pos + 5];
        assert(d == hex_byte(b as int % 16));
        assert(is_lower_hex(d));
        assert(hex_value(d) == b as int % 16);
        assert(bytes[pos + 4] - 48 == b as int / 16);
    }
}

/// What is read up to the closing quotation mark is the escaped form of
/// the bytes read, and that mark.
pub proof fn lemma_parse_raw_sound(bytes: Seq<u8>, pos: int)
    requires
        parse_raw(bytes, pos) is Some,
    ensures
        ({
            let (raw, next) = parse_raw(bytes, pos)->0;
            &&& pos < next <= bytes.len()
            &&& next == pos + escaped(raw).len() + 1
            &&& has_at(bytes, pos, escaped(raw) + seq![QUOTE])
        }),
    decreases bytes.len() - pos,
{
    let (raw, next) = parse_raw(bytes, pos)->0;
    if bytes[pos] == QUOTE {
        assert(raw =~= Seq::<u8>::empty());
        assert(bytes.subrange(pos, pos + 1) =~= escaped(raw) + seq![QUOTE]);
    } else {
        let (b, mid) = unescape_at(bytes, pos)->0;
        lemma_unescape_sound(bytes, pos);
        let (rest, end) = parse_raw(bytes, mid)->0;
        lemma_parse_raw_sound(bytes, mid);
        assert(raw =~= seq![b] + rest);
        assert(raw[0] == b);
        assert(raw.skip(1) =~= rest);
        lemma_has_at_join(bytes, pos, escape(b), escaped(rest) + seq![QUOTE]);
        assert(escape(b) + (escaped(rest) + seq![QUOTE]) =~= escaped(raw) + seq![QUOTE]);
    }
}

/// The escaped form of bytes and a quotation mark are read as those
/// bytes.
pub proof fn lemma_parse_raw_complete(bytes: Seq<u8>, pos: int, raw: Seq<u8>)
    requires
        has_at(bytes, pos, escaped(raw) + seq![QUOTE]),
    ensures
        parse_raw(bytes, pos) == Some((raw, pos + escaped(raw).len() + 1)),
    decreases raw.len(),
{
    if raw.len() == 0 {
        lemma_has_at_index(bytes, pos, escaped(raw) + seq![QUOTE], 0);
        assert(raw =~= Seq::<u8>::empty());
    } else {
        let b = raw[0];
        let rest = raw.skip(1);
        assert(escaped(raw) + seq![QUOTE] =~= escape(b) + (escaped(rest) + seq![QUOTE]));
        lemma_has_at_split(bytes, pos, escape(b), escaped(rest) + seq![QUOTE]);
        lemma_has_at_index(bytes, pos, escape(b), 0);
        assert(bytes[pos] != QUOTE);
        lemma_unescape_complete(bytes, pos, b);
        lemma_parse_raw_complete(bytes, pos + escape(b).len(), rest);
        assert(seq![b] + rest =~= raw);
    }
}

/// What is read as a quoted text is the quoted form of that text.
pub proof fn lemma_parse_text_sound(bytes: Seq<u8>, pos: int)
    requires
        parse_text(bytes, pos) is Some,
    ensures
        ({
            let (s, next) = parse_text(bytes, pos)->0;
            &&& pos + 2 <= next <= bytes.len()
            &&& next == pos + quoted(s).len()
            &&& has_at(bytes, pos, quoted(s))
        }),
{
    let (s, next) = parse_text(bytes, pos)->0;
    let (raw, end) = parse_raw(bytes, pos + 1)->0;
    lemma_parse_raw_sound(bytes, pos + 1);
    vstd::utf8::decode_utf8_encode_utf8(raw);
    assert(encode_utf8(s) == raw);
    assert(has_at(bytes, pos, seq![QUOTE])) by {
        assert(bytes.subrange(pos, pos + 1) =~= seq![QUOTE]);
    }
    lemma_has_at_join(bytes, pos, seq![QUOTE], escaped(raw) + seq![QUOTE]);
    assert(seq![QUOTE] + (escaped(raw) + seq![QUOTE]) =~= quoted(s));
}

/// The quoted form of a text is read as that text.
pub proof fn lemma_parse_text_complete(bytes: Seq<u8>, pos: int, s: Seq<char>)
    requires
        has_at(bytes, pos, quoted(s)),
    ensures
        parse_text(bytes, pos) == Some((s, pos + quoted(s).len())),
{
    let raw = encode_utf8(s);
    assert(quoted(s) =~= seq![QUOTE] + (escaped(raw) + seq![QUOTE]));
    lemma_has_at_split(bytes, pos, seq![QUOTE], escaped(raw) + seq![QUOTE]);
    lemma_has_at_index(bytes, pos, seq![QUOTE], 0);
    lemma_parse_raw_complete(bytes, pos + 1, raw);
    vstd::utf8::encode_utf8_valid_utf8(s);
    vstd::utf8::encode_utf8_decode_utf8(s);
}

/// What is read as the entries of an array is their joined form and the
/// closing bracket.
pub proof fn lemma_parse_entries_sound(bytes: Seq<u8>, pos: int)
    requires
        parse_entries(bytes, pos) is Some,
    ensures
        ({
            let (list, next) = parse_entries(bytes, pos)->0;
            &&& list.len() >= 1
            &&& pos < next <= bytes.len()
            &&& has_at(bytes, pos, joined(list) + seq![ARRAY_CLOSE])
            &&& next == pos + joined(list).len() + 1
        }),
    decreases bytes.len() - pos,
{
    let (list, next) = parse_entries(bytes, pos)->0;
    let (s, n1) = parse_text(bytes, pos)->0;
    lemma_parse_text_sound(bytes, pos);
    assert(has_at(bytes, pos, quoted(s)));
    if n1 < bytes.len() && bytes[n1] == ARRAY_CLOSE {
        assert(list =~= seq![s]);
        assert(has_at(bytes, n1, seq![ARRAY_CLOSE])) by {
            assert(bytes.subrange(n1, n1 + 1) =~= seq![ARRAY_CLOSE]);
        }
        lemma_has_at_join(bytes, pos, quoted(s), seq![ARRAY_CLOSE]);
        assert(joined(list) == quoted(s));
    } else {
        let (rest, end) = parse_entries(bytes, n1 + 1)->0;
        lemma_parse_entries_sound(bytes, n1 + 1);
        assert(list =~= seq![s] + rest);
        assert(list.skip(1) =~= rest);
        assert(list[0] == s);
        assert(has_at(bytes, n1, seq![COMMA])) by {
            assert(bytes.subrange(n1, n1 + 1) =~= seq![COMMA]);
        }
        lemma_has_at_join(bytes, pos, quoted(s), seq![COMMA]);
        lemma_has_at_join(bytes, pos, quoted(s) + seq![COMMA], joined(rest) + seq![ARRAY_CLOSE]);
        assert(quoted(s) + seq![COMMA] + (joined(rest) + seq![ARRAY_CLOSE]) =~= joined(list)
            + seq![ARRAY_CLOSE]);
    }
}

/// The joined form of a list of texts with the closing bracket is read
/// as that list.
pub proof fn lemma_parse_entries_complete(bytes: Seq<u8>, pos: int, list: Seq<Seq<char>>)
    requires
        list.len() >= 1,
        has_at(bytes, pos, joined(list) + seq![ARRAY_CLOSE]),
    ensures
        parse_entries(bytes, pos) == Some((list, pos + joined(list).len() + 1)),
    decreases list.len(),
{
    let first = list[0];
    if list.len() == 1 {
        lemma_has_at_split(bytes, pos, quoted(first), seq![ARRAY_CLOSE]);
        lemma_parse_text_complete(bytes, pos, first);
        let n1 = pos + quoted(first).len();
        assert(bytes.subrange(n1, n1 + 1)[0] == ARRAY_CLOSE);
        assert(list =~= seq![first]);
    } else {
        let rest = list.skip(1);
        assert(joined(list) + seq![ARRAY_CLOSE] =~= quoted(first) + (seq![COMMA] + (joined(rest)
            + seq![ARRAY_CLOSE])));
        lemma_has_at_split(
            bytes,
            pos,
            quoted(first),
            seq![COMMA] + (joined(rest) + seq![ARRAY_CLOSE]),
        );
        lemma_parse_text_complete(bytes, pos, first);
        let n1 = pos + quoted(first).len();
        lemma_has_at_split(bytes, n1, seq![COMMA], joined(rest) + seq![ARRAY_CLOSE]);
        assert(bytes.subrange(n1, n1 + 1)[0] == COMMA);
        lemma_parse_entries_complete(bytes, n1 + 1, rest);
        assert(seq![first] + rest =~= list);
    }
}

/// What is read as an array of texts is the array form of those texts.
pub proof fn lemma_parse_array_sound(bytes: Seq<u8>, pos: int)
    requires
        parse_array(bytes, pos) is Some,
    ensures
        ({
            let (list, next) = parse_array(bytes, pos)->0;
            &&& pos < next <= bytes.len()
            &&& has_at(bytes, pos, text_array(list))
            &&& next == pos + text_array(list).len()
        }),
{
    let (list, next) = parse_array(bytes, pos)->0;
    assert(has_at(bytes, pos, seq![ARRAY_OPEN])) by {
        assert(bytes.subrange(pos, pos + 1) =~= seq![ARRAY_OPEN]);
    }
    if pos + 1 < bytes.len() && bytes[pos + 1] == ARRAY_CLOSE {
        assert(list =~= Seq::empty());
        assert(bytes.subrange(pos, pos + 2) =~= text_array(list));
    } else {
        lemma_parse_entries_sound(bytes, pos + 1);
        lemma_has_at_join(bytes, pos, seq![ARRAY_OPEN], joined(list) + seq![ARRAY_CLOSE]);
        assert(seq![ARRAY_OPEN] + (joined(list) + seq![ARRAY_CLOSE]) =~= text_array(list));
    }
}

/// The array form of a list of texts is read as that list.
pub proof fn lemma_parse_array_complete(bytes: Seq<u8>, pos: int, list: Seq<Seq<char>>)
    requires
        has_at(bytes, pos, text_array(list)),
    ensures
        parse_array(bytes, pos) == Some((list, pos + text_array(list).len())),
{
    assert(text_array(list) =~= seq![ARRAY_OPEN] + (joined(list) + seq![ARRAY_CLOSE]));
    lemma_has_at_split(bytes, pos, seq![ARRAY_OPEN], joined(list) + seq![ARRAY_CLOSE]);
    assert(bytes.subrange(pos, pos + 1)[0] == ARRAY_OPEN);
    if list.len() == 0 {
        assert(bytes.subrange(pos + 1, pos + 2)[0] == ARRAY_CLOSE);
        assert(list =~= Seq::empty());
    } else {
        let tail = joined(list) + seq![ARRAY_CLOSE];
        assert(joined(list)[0] == QUOTE);
        assert(bytes.subrange(pos + 1, pos + 1 + tail.len())[0] == tail[0]);
        assert(bytes[pos + 1] == QUOTE);
        lemma_parse_entries_complete(bytes, pos + 1, list);
    }
}

/// What is read as an optional text is the form of that text or of its
/// absence.
pub proof fn lemma_parse_optional_sound(bytes: Seq<u8>, pos: int)
    requires
        parse_optional(bytes, pos) is Some,
    ensures
        ({
            let (s, next) = parse_optional(bytes, pos)->0;
            &&& pos < next <= bytes.len()
            &&& has_at(bytes, pos, optional_text(s))
            &&& next == pos + optional_text(s).len()
        }),
{
    reveal_strlit("null");
    if !has_at(bytes, pos, lit_null()) {
        lemma_parse_text_sound(bytes, pos);
    }
}

/// The form of an optional text is read as that optional text.
pub proof fn lemma_parse_optional_complete(bytes: Seq<u8>, pos: int, s: Option<Seq<char>>)
    requires
        has_at(bytes, pos, optional_text(s)),
    ensures
        parse_optional(bytes, pos) == Some((s, pos + optional_text(s).len())),
{
    reveal_strlit("null");
    match s {
        Some(t) => {
            lemma_parse_text_complete(bytes, pos, t);
            assert(bytes[pos] == QUOTE);
            if has_at(bytes, pos, lit_null()) {
                assert(bytes.subrange(pos, pos + lit_null().len())[0] == lit_null()[0]);
                assert(false);
            }
        },
        None => {},
    }
}

/// Whether `ds` writes a number as `decimal` does: digits only, at least
/// one, and no zero in front of another digit.
pub open spec fn is_canonical_digits(ds: Seq<u8>) -> bool {
    &&& ds.len() >= 1
    &&& forall|i: int| 0 <= i < ds.len() ==> is_digit_byte(#[trigger] ds[i])
    &&& (ds.len() == 1 || ds[0] != ZERO)
}

/// The decimal form of a number is canonical and writes that number.
pub proof fn lemma_decimal_value(n: nat)
    ensures
        is_canonical_digits(decimal(n)),
        digits_value(decimal(n)) == n,
        n >= 10 ==> decimal(n).len() >= 2,
    decreases n,
{
    if n < 10 {
        let ds = decimal(n);
        assert(ds.drop_last() =~= Seq::<u8>::empty());
        assert(digits_value(ds.drop_last()) == 0);
    } else {
        lemma_decimal_value(n / 10);
        let head = decimal(n / 10);
        let ds = decimal(n);
        assert(ds.drop_last() =~= head);
        assert(ds[0] == head[0]);
        if head.len() == 1 {
            assert(digits_value(head.drop_last()) == 0) by {
                assert(head.drop_last() =~= Seq::<u8>::empty());
            }
            assert(head[0] != ZERO);
        }
    }
}

/// Canonical digits whose first is not zero write a positive number.
proof fn lemma_digits_value_positive(ds: Seq<u8>)
    requires
        is_canonical_digits(ds),
        ds[0] != ZERO,
    ensures
        digits_value(ds) >= 1,
    decreases ds.len(),
{
    if ds.len() == 1 {
        assert(ds.drop_last() =~= Seq::<u8>::empty());
        assert(digits_value(ds.drop_last()) == 0);
    } else {
        let head = ds.drop_last();
        assert(head[0] == ds[0]);
        assert forall|i: int| 0 <= i < head.len() implies is_digit_byte(#[trigger] head[i]) by {
            assert(head[i] == ds[i]);
        }
        lemma_digits_value_positive(head);
    }
}

/// Canonical digits are the decimal form of the number they write.
pub proof fn lemma_canonical_digits(ds: Seq<u8>)
    requires
        is_canonical_digits(ds),
    ensures
        decimal(digits_value(ds)) == ds,
    decreases ds.len(),
{
    let d = ds.last();
    assert(is_digit_byte(ds[ds.len() - 1]));
    let head = ds.drop_last();
    if ds.len() == 1 {
        assert(head =~= Seq::<u8>::empty());
        assert(digits_value(head) == 0);
        assert(decimal(digits_value(ds)) =~= ds);
    } else {
        assert(head[0] == ds[0]);
        assert forall|i: int| 0 <= i < head.len() implies is_digit_byte(#[trigger] head[i]) by {
            assert(head[i] == ds[i]);
        }
        lemma_digits_value_positive(head);
        lemma_canonical_digits(head);
        let v = digits_value(head);
        let n = digits_value(ds);
        assert(n == v * 10 + (d - ZERO));
        assert(n / 10 == v && n % 10 == d - ZERO);
        assert(decimal(n) =~= ds);
    }
}

/// What is read as a number is the decimal form of that number, and no
/// digit follows it.
pub proof fn lemma_parse_decimal_sound(bytes: Seq<u8>, pos: int)
    requires
        parse_decimal(bytes, pos) is Some,
    ensures
        ({
            let (n, next) = parse_decimal(bytes, pos)->0;
            &&& pos < next <= bytes.len()
            &&& has_at(bytes, pos, decimal(n as nat))
            &&& next == pos + decimal(n as nat).len()
        }),
{
    let end = digits_end(bytes, pos);
    lemma_digits_end(bytes, pos);
    let ds = bytes.subrange(pos, end);
    assert forall|i: int| 0 <= i < ds.len() implies is_digit_byte(#[trigger] ds[i]) by {
        assert(is_digit_byte(bytes[pos + i]));
    }
    lemma_canonical_digits(ds);
}

/// The decimal form of a number that no digit follows is read as that
/// number.
pub proof fn lemma_parse_decimal_complete(bytes: Seq<u8>, pos: int, n: u64)
    requires
        has_at(bytes, pos, decimal(n as nat)),
        pos + decimal(n as nat).len() == bytes.len() || !is_digit_byte(
            bytes[pos + decimal(n as nat).len()],
        ),
    ensures
        parse_decimal(bytes, pos) == Some((n, pos + decimal(n as nat).len())),
{
    let ds = decimal(n as nat);
    lemma_decimal_value(n as nat);
    let end = pos + ds.len();
    let part = bytes.subrange(pos, end);
    assert forall|k: int| pos <= k < end implies is_digit_byte(#[trigger] bytes[k]) by {
        assert(part[k - pos] == ds[k - pos]);
    }
    lemma_digits_end_is(bytes, pos, end);
    assert(part[0] == ds[0]);
}

/// What is read as a record is the byte form of what was read.
pub proof fn lemma_parse_record_sound(bytes: Seq<u8>)
    requires
        parse_record(bytes) is Some,
    ensures
        block_bytes(parse_record(bytes)->0) == bytes,
{
    let b = parse_record(bytes)->0;
    let a0 = lit_open();
    let q1 = a0.len() as int;
    let (encrypted, p1) = parse_array(bytes, q1)->0;
    lemma_parse_array_sound(bytes, q1);
    let q2 = p1 + lit_plain().len();
    let (plain, p2) = parse_optional(bytes, q2)->0;
    lemma_parse_optional_sound(bytes, q2);
    let q3 = p2 + lit_signature().len();
    let (signature, p3) = parse_optional(bytes, q3)->0;
    lemma_parse_optional_sound(bytes, q3);
    let q4 = p3 + lit_parents().len();
    let (parents, p4) = parse_array(bytes, q4)->0;
    lemma_parse_array_sound(bytes, q4);
    let q5 = p4 + lit_timestamp().len();
    let (timestamp, p5) = parse_decimal(bytes, q5)->0;
    lemma_parse_decimal_sound(bytes, q5);

    let a1 = a0 + text_array(encrypted);
    lemma_has_at_join(bytes, 0, a0, text_array(encrypted));
    let a2 = a1 + lit_plain();
    lemma_has_at_join(bytes, 0, a1, lit_plain());
    let a3 = a2 + optional_text(plain);
    lemma_has_at_join(bytes, 0, a2, optional_text(plain));
    let a4 = a3 + lit_signature();
    lemma_has_at_join(bytes, 0, a3, lit_signature());
    let a5 = a4 + optional_text(signature);
    lemma_has_at_join(bytes, 0, a4, optional_text(signature));
    let a6 = a5 + lit_parents();
    lemma_has_at_join(bytes, 0, a5, lit_parents());
    let a7 = a6 + text_array(parents);
    lemma_has_at_join(bytes, 0, a6, text_array(parents));
    let a8 = a7 + lit_timestamp();
    lemma_has_at_join(bytes, 0, a7, lit_timestamp());
    let a9 = a8 + decimal(timestamp as nat);
    lemma_has_at_join(bytes, 0, a8, decimal(timestamp as nat));
    let a10 = a9 + lit_close();
    lemma_has_at_join(bytes, 0, a9, lit_close());
    assert(a10 == block_bytes(b));
    assert(bytes.subrange(0, bytes.len() as int) =~= bytes);
}

/// The length of the byte form of `b` up to and with its `k`-th part,
/// the parts being the six fixed texts and the five members in turn.
pub open spec fn part_end(b: BlockView, k: int) -> int {
    let n0 = lit_open().len() as int;
    let n1 = n0 + text_array(b.content.encrypted).len();
    let n2 = n1 + lit_plain().len();
    let n3 = n2 + optional_text(b.content.plain).len();
    let n4 = n3 + lit_signature().len();
    let n5 = n4 + optional_text(b.content.signature).len();
    let n6 = n5 + lit_parents().len();
    let n7 = n6 + text_array(b.parents).len();
    let n8 = n7 + lit_timestamp().len();
    let n9 = n8 + decimal(b.timestamp as nat).len();
    if k <= 0 {
        n0
    } else if k == 1 {
        n1
    } else if k == 2 {
        n2
    } else if k == 3 {
        n3
    } else if k == 4 {
        n4
    } else if k == 5 {
        n5
    } else if k == 6 {
        n6
    } else if k == 7 {
        n7
    } else if k == 8 {
        n8
    } else if k == 9 {
        n9
    } else {
        n9 + lit_close().len()
    }
}

/// Each part of the byte form of a block stands where the parts before
/// it end.
pub proof fn lemma_record_layout(b: BlockView)
    ensures
        block_bytes(b).len() == part_end(b, 10),
        has_at(block_bytes(b), 0, lit_open()),
        has_at(block_bytes(b), part_end(b, 0), text_array(b.content.encrypted)),
        has_at(block_bytes(b), part_end(b, 1), lit_plain()),
        has_at(block_bytes(b), part_end(b, 2), optional_text(b.content.plain)),
        has_at(block_bytes(b), part_end(b, 3), lit_signature()),
        has_at(block_bytes(b), part_end(b, 4), optional_text(b.content.signature)),
        has_at(block_bytes(b), part_end(b, 5), lit_parents()),
        has_at(block_bytes(b), part_end(b, 6), text_array(b.parents)),
        has_at(block_bytes(b), part_end(b, 7), lit_timestamp()),
        has_at(block_bytes(b), part_end(b, 8), decimal(b.timestamp as nat)),
        has_at(block_bytes(b), part_end(b, 9), lit_close()),
{
    let bytes = block_bytes(b);
    let a0 = lit_open();
    let a1 = a0 + text_array(b.content.encrypted);
    let a2 = a1 + lit_plain();
    let a3 = a2 + optional_text(b.content.plain);
    let a4 = a3 + lit_signature();
    let a5 = a4 + optional_text(b.content.signature);
    let a6 = a5 + lit_parents();
    let a7 = a6 + text_array(b.parents);
    let a8 = a7 + lit_timestamp();
    let a9 = a8 + decimal(b.timestamp as nat);
    let a10 = a9 + lit_close();
    assert(a10 == bytes);
    assert(has_at(bytes, 0, a10)) by {
        assert(bytes.subrange(0, bytes.len() as int) =~= bytes);
    }
    lemma_has_at_split(bytes, 0, a9, lit_close());
    lemma_has_at_split(bytes, 0, a8, decimal(b.timestamp as nat));
    lemma_has_at_split(bytes, 0, a7, lit_timestamp());
    lemma_has_at_split(bytes, 0, a6, text_array(b.parents));
    lemma_has_at_split(bytes, 0, a5, lit_parents());
    lemma_has_at_split(bytes, 0, a4, optional_text(b.content.signature));
    lemma_has_at_split(bytes, 0, a3, lit_signature());
    lemma_has_at_split(bytes, 0, a2, optional_text(b.content.plain));
    lemma_has_at_split(bytes, 0, a1, lit_plain());
    lemma_has_at_split(bytes, 0, a0, text_array(b.content.encrypted));
}

/// The byte form of a block is read as the members of that block.
pub proof fn lemma_parse_record_complete(b: BlockView)
    ensures
        parse_record(block_bytes(b)) == Some(b),
{
    let bytes = block_bytes(b);
    lemma_record_layout(b);
    let q1 = part_end(b, 0);
    let p1 = part_end(b, 1);
    let q2 = part_end(b, 2);
    let p2 = part_end(b, 3);
    let q3 = part_end(b, 4);
    let p3 = part_end(b, 5);
    let q4 = part_end(b, 6);
    let p4 = part_end(b, 7);
    let q5 = part_end(b, 8);
    let p5 = part_end(b, 9);
    assert(parse_array(bytes, q1) == Some((b.content.encrypted, p1))) by {
        lemma_parse_array_complete(bytes, q1, b.content.encrypted);
    }
    assert(parse_optional(bytes, q2) == Some((b.content.plain, p2))) by {
        lemma_parse_optional_complete(bytes, q2, b.content.plain);
    }
    assert(parse_optional(bytes, q3) == Some((b.content.signature, p3))) by {
        lemma_parse_optional_complete(bytes, q3, b.content.signature);
    }
    assert(parse_array(bytes, q4) == Some((b.parents, p4))) by {
        lemma_parse_array_complete(bytes, q4, b.parents);
    }
    assert(parse_decimal(bytes, q5) == Some((b.timestamp, p5))) by {
        assert(!is_digit_byte(bytes[p5])) by {
            reveal_strlit("}");
            assert(bytes.subrange(p5, p5 + lit_close().len())[0] == lit_close()[0]);
        }
        lemma_parse_decimal_complete(bytes, q5, b.timestamp);
    }
    let got = BlockView {
        content: ContentView {
            encrypted: b.content.encrypted,
            plain: b.content.plain,
            signature: b.content.signature,
        },
        parents: b.parents,
        timestamp: b.timestamp,
    };
    assert(got == b);
    assert(q1 == lit_open().len());
    assert(q2 == p1 + lit_plain().len());
    assert(q3 == p2 + lit_signature().len());
    assert(q4 == p3 + lit_parents().len());
    assert(q5 == p4 + lit_timestamp().len());
    assert(p5 + lit_close().len() == bytes.len());
    assert(parse_record(bytes) == Some(got));
}

/// Round trip: the byte form of a valid block is read back as that block.
pub proof fn lemma_round_trip(b: BlockView)
    requires
        b.valid(),
    ensures
        parse_block(block_bytes(b)) == Some(b),
{
    lemma_parse_record_complete(b);
}

/// A byte string is read as a block exactly if it is the byte form of
/// that block and the block is valid: no other bytes stand for a block.
pub proof fn lemma_parse_block_exact(bytes: Seq<u8>, b: BlockView)
    ensures
        parse_block(bytes) == Some(b) <==> (b.valid() && block_bytes(b) == bytes),
{
    if parse_block(bytes) == Some(b) {
        lemma_parse_record_sound(bytes);
    }
    if b.valid() && block_bytes(b) == bytes {
        lemma_parse_record_complete(b);
    }
}

/// Blocks with the same byte form are the same block.
pub proof fn lemma_block_bytes_injective(a: BlockView, b: BlockView)
    requires
        block_bytes(a) == block_bytes(b),
    ensures
        a == b,
{
    lemma_parse_record_complete(a);
    lemma_parse_record_complete(b);
}

} // verus!
