//! The order in which the parents of a block are kept: that of their
//! UTF-8 bytes, compared byte by byte, a proper prefix before its
//! extensions. It is the order of strings.

use vstd::prelude::*;
use vstd::utf8::encode_utf8;
use crate::text::ascii_bytes;

verus! {

/// Whether `a` comes before `b`, given that they agree below index `i`.
pub open spec fn precedes_from(a: Seq<u8>, b: Seq<u8>, i: int) -> bool
    decreases a.len() - i,
{
    if i < 0 || i >= b.len() {
        false
    } else if i >= a.len() {
        true
    } else if a[i] != b[i] {
        a[i] < b[i]
    } else {
        precedes_from(a, b, i + 1)
    }
}

/// Whether the text `a` comes strictly before the text `b`.
pub open spec fn precedes(a: Seq<char>, b: Seq<char>) -> bool {
    precedes_from(encode_utf8(a), encode_utf8(b), 0)
}

/// Whether `list` is in strictly ascending order, so that no text occurs
/// twice in it.
pub open spec fn ascending(list: Seq<Seq<char>>) -> bool {
    forall|i: int, j: int| 0 <= i < j < list.len() ==> precedes(#[trigger] list[i], #[trigger] list[j])
}

pub proof fn lemma_precedes_irreflexive(a: Seq<u8>, i: int)
    requires
        0 <= i,
    ensures
        !precedes_from(a, a, i),
    decreases a.len() - i,
{
    if i < a.len() {
        lemma_precedes_irreflexive(a, i + 1);
    }
}

pub proof fn lemma_precedes_from_transitive(a: Seq<u8>, b: Seq<u8>, c: Seq<u8>, i: int)
    requires
        0 <= i,
        precedes_from(a, b, i),
        precedes_from(b, c, i),
    ensures
        precedes_from(a, c, i),
    decreases a.len() - i,
{
    if i < a.len() && a[i] == b[i] && b[i] == c[i] {
        lemma_precedes_from_transitive(a, b, c, i + 1);
    }
}

pub proof fn lemma_precedes_total(a: Seq<u8>, b: Seq<u8>, i: int)
    requires
        0 <= i <= a.len(),
        i <= b.len(),
        forall|k: int| 0 <= k < i ==> a[k] == b[k],
        !precedes_from(a, b, i),
        !precedes_from(b, a, i),
    ensures
        a == b,
    decreases a.len() - i,
{
    if i < a.len() {
        lemma_precedes_total(a, b, i + 1);
    } else {
        assert(a =~= b);
    }
}

/// Of three texts in a row the first comes before the last.
pub proof fn lemma_precedes_transitive(a: Seq<char>, b: Seq<char>, c: Seq<char>)
    requires
        precedes(a, b),
        precedes(b, c),
    ensures
        precedes(a, c),
{
    lemma_precedes_from_transitive(encode_utf8(a), encode_utf8(b), encode_utf8(c), 0);
}

/// Two texts are equal, or one comes before the other, and never both.
pub proof fn lemma_precedes_trichotomy(a: Seq<char>, b: Seq<char>)
    ensures
        a == b || precedes(a, b) || precedes(b, a),
        !(precedes(a, b) && precedes(b, a)),
        a == b ==> !precedes(a, b),
{
    let x = encode_utf8(a);
    let y = encode_utf8(b);
    if !precedes(a, b) && !precedes(b, a) {
        lemma_precedes_total(x, y, 0);
        vstd::utf8::encode_utf8_decode_utf8(a);
        vstd::utf8::encode_utf8_decode_utf8(b);
    }
    if precedes(a, b) && precedes(b, a) {
        lemma_precedes_from_transitive(x, y, x, 0);
        lemma_precedes_irreflexive(x, 0);
    }
    lemma_precedes_irreflexive(x, 0);
}

/// Texts of ASCII characters stand in the order of their characters.
pub proof fn lemma_precedes_ascii(a: Seq<char>, b: Seq<char>)
    requires
        vstd::utf8::is_ascii_chars(a),
        vstd::utf8::is_ascii_chars(b),
    ensures
        precedes(a, b) == precedes_from(ascii_bytes(a), ascii_bytes(b), 0),
{
    vstd::utf8::is_ascii_chars_encode_utf8(a);
    vstd::utf8::is_ascii_chars_encode_utf8(b);
    assert(encode_utf8(a) =~= ascii_bytes(a));
    assert(encode_utf8(b) =~= ascii_bytes(b));
}

/// An ascending list is determined by the set of its members.
pub proof fn lemma_ascending_unique(x: Seq<Seq<char>>, y: Seq<Seq<char>>)
    requires
        ascending(x),
        ascending(y),
        x.to_set() == y.to_set(),
    ensures
        x == y,
    decreases x.len(),
{
    if x.len() == 0 {
        if y.len() > 0 {
            assert(y.to_set().contains(y[0]));
            assert(x.to_set().contains(y[0]));
        }
        assert(x =~= y);
    } else if y.len() == 0 {
        assert(x.to_set().contains(x[0]));
        assert(y.to_set().contains(x[0]));
    } else {
        // The greatest members agree.
        let lx = x.last();
        let ly = y.last();
        assert(x.to_set().contains(lx));
        assert(y.to_set().contains(lx));
        let j = choose|j: int| 0 <= j < y.len() && y[j] == lx;
        assert(y.to_set().contains(ly));
        assert(x.to_set().contains(ly));
        let i = choose|i: int| 0 <= i < x.len() && x[i] == ly;
        lemma_precedes_trichotomy(lx, ly);
        if lx != ly {
            if j < y.len() - 1 {
                assert(precedes(y[j], y[y.len() - 1]));
            }
            if i < x.len() - 1 {
                assert(precedes(x[i], x[x.len() - 1]));
            }
            assert(false);
        }
        let xs = x.drop_last();
        let ys = y.drop_last();
        assert forall|t: Seq<char>| xs.to_set().contains(t) <==> ys.to_set().contains(t) by {
            lemma_drop_last_members(x, t);
            lemma_drop_last_members(y, t);
        }
        assert(xs.to_set() =~= ys.to_set());
        assert(ascending(xs)) by {
            assert forall|i: int, j: int| 0 <= i < j < xs.len() implies precedes(
                #[trigger] xs[i],
                #[trigger] xs[j],
            ) by {
                assert(precedes(x[i], x[j]));
            }
        }
        assert(ascending(ys)) by {
            assert forall|i: int, j: int| 0 <= i < j < ys.len() implies precedes(
                #[trigger] ys[i],
                #[trigger] ys[j],
            ) by {
                assert(precedes(y[i], y[j]));
            }
        }
        lemma_ascending_unique(xs, ys);
        assert(x =~= xs.push(lx));
        assert(y =~= ys.push(ly));
    }
}

/// The members of an ascending list without its last entry are the
/// members other than that entry.
proof fn lemma_drop_last_members(x: Seq<Seq<char>>, t: Seq<char>)
    requires
        ascending(x),
        x.len() > 0,
    ensures
        x.drop_last().to_set().contains(t) <==> (x.to_set().contains(t) && t != x.last()),
{
    let xs = x.drop_last();
    if xs.to_set().contains(t) {
        let i = choose|i: int| 0 <= i < xs.len() && xs[i] == t;
        assert(x[i] == t);
        assert(precedes(x[i], x[x.len() - 1]));
        lemma_precedes_trichotomy(t, x.last());
    }
    if x.to_set().contains(t) && t != x.last() {
        let i = choose|i: int| 0 <= i < x.len() && x[i] == t;
        assert(xs[i] == t);
    }
}

/// Whether `a` comes strictly before `b`.
pub fn str_precedes(a: &str, b: &str) -> (lt: bool)
    ensures
        lt == precedes(a@, b@),
{
    let x = a.as_bytes();
    let y = b.as_bytes();
    assert(x@ == encode_utf8(a@));
    assert(y@ == encode_utf8(b@));
    let mut i: usize = 0;
    while i < x.len() && i < y.len()
        invariant
            0 <= i <= x.len(),
            i <= y.len(),
            x@ == encode_utf8(a@),
            y@ == encode_utf8(b@),
            precedes(a@, b@) == precedes_from(x@, y@, i as int),
        decreases x.len() - i,
    {
        let p = x[i];
        let q = y[i];
        if p != q {
            return p < q;
        }
        i += 1;
    }
    i < y.len()
}

} // verus!
