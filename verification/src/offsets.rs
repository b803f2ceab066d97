//! UTF-8 byte offsets of character positions: the bridge between the byte
//! ranges an editor widget reports and the characters of a note.
use vstd::prelude::*;
use vstd::utf8::{encode_scalar, encode_utf8};
use crate::text::chars_of;

verus! {

/// Number of UTF-8 bytes of `c`.
pub open spec fn char_width(c: char) -> nat {
    encode_scalar(c as u32).len()
}

/// Number of UTF-8 bytes of `cs`.
pub open spec fn byte_len(cs: Seq<char>) -> nat {
    encode_utf8(cs).len()
}

/// The byte offset at which character `i` of `cs` starts (the byte length
/// when `i` is the number of characters).
pub open spec fn byte_off(cs: Seq<char>, i: int) -> nat {
    encode_utf8(cs.take(i)).len()
}

/// Encoding distributes over concatenation.
pub proof fn lemma_encode_concat(a: Seq<char>, b: Seq<char>)
    ensures
        encode_utf8(a + b) == encode_utf8(a) + encode_utf8(b),
    decreases a.len(),
{
    if a.len() == 0 {
        assert(a + b =~= b);
        assert(encode_utf8(a) =~= Seq::<u8>::empty());
        assert(encode_utf8(b) =~= encode_utf8(a) + encode_utf8(b));
    } else {
        lemma_encode_concat(a.drop_first(), b);
        assert((a + b).drop_first() =~= a.drop_first() + b);
        assert((a + b)[0] == a[0]);
        assert(encode_utf8(a + b) =~= encode_scalar(a[0] as u32) + encode_utf8(a.drop_first() + b));
    }
}

/// Every character takes one to four bytes.
pub proof fn lemma_width_bounds(c: char)
    ensures
        1 <= char_width(c) <= 4,
{
    vstd::utf8::char_is_scalar(c);
}

/// One more character adds its width.
pub proof fn lemma_off_step(cs: Seq<char>, i: int)
    requires
        0 <= i < cs.len(),
    ensures
        byte_off(cs, i + 1) == byte_off(cs, i) + char_width(cs[i]),
{
    assert(cs.take(i + 1) =~= cs.take(i) + seq![cs[i]]);
    lemma_encode_concat(cs.take(i), seq![cs[i]]);
    assert(seq![cs[i]].drop_first() =~= Seq::<char>::empty());
    assert(encode_utf8(seq![cs[i]]) =~= encode_scalar(cs[i] as u32) + encode_utf8(Seq::<char>::empty()));
}

/// Offsets grow strictly with the character index.
pub proof fn lemma_off_mono(cs: Seq<char>, i: int, j: int)
    requires
        0 <= i <= j <= cs.len(),
    ensures
        byte_off(cs, i) <= byte_off(cs, j),
        i < j ==> byte_off(cs, i) < byte_off(cs, j),
        byte_off(cs, i) + (j - i) <= byte_off(cs, j),
    decreases j - i,
{
    if i < j {
        lemma_off_mono(cs, i, j - 1);
        lemma_off_step(cs, j - 1);
        lemma_width_bounds(cs[j - 1]);
    }
}

/// The offset after the last character is the byte length.
pub proof fn lemma_off_end(cs: Seq<char>)
    ensures
        byte_off(cs, cs.len() as int) == byte_len(cs),
        byte_off(cs, 0) == 0,
{
    assert(cs.take(cs.len() as int) =~= cs);
    assert(cs.take(0) =~= Seq::<char>::empty());
}

/// Number of UTF-8 bytes of `c` (`char::len_utf8`).
pub fn utf8_width(c: char) -> (w: usize)
    ensures
        w == char_width(c),
        1 <= w <= 4,
{
    proof {
        vstd::utf8::char_is_scalar(c);
    }
    let u = c as u32;
    if u <= 0x7F {
        1
    } else if u <= 0x7FF {
        2
    } else if u <= 0xFFFF {
        3
    } else {
        4
    }
}

/// The characters of `s` and its byte length.
pub fn chars_and_len(s: &str) -> (r: (Vec<char>, usize))
    ensures
        r.0@ == s@,
        r.1 == byte_len(s@),
{
    let cs = chars_of(s);
    let n = s.as_bytes().len();
    (cs, n)
}

/// The character index where the first character boundary at or after byte
/// `x` falls, searching from character `i`.
pub open spec fn ceil_from(cs: Seq<char>, x: int, i: int) -> int
    decreases cs.len() - i,
{
    if i < 0 || i >= cs.len() || byte_off(cs, i) >= x {
        i
    } else {
        ceil_from(cs, x, i + 1)
    }
}

/// The character index of the first character boundary at or after byte `x`.
pub open spec fn ceil_char(cs: Seq<char>, x: int) -> int {
    ceil_from(cs, x, 0)
}

/// `ceil_from` stays in range and is the first boundary at or after `x`.
pub proof fn lemma_ceil_from(cs: Seq<char>, x: int, i: int)
    requires
        0 <= i <= cs.len(),
    ensures
        i <= ceil_from(cs, x, i) <= cs.len(),
        ceil_from(cs, x, i) < cs.len() ==> byte_off(cs, ceil_from(cs, x, i)) >= x,
    decreases cs.len() - i,
{
    if i < cs.len() && byte_off(cs, i) < x {
        lemma_ceil_from(cs, x, i + 1);
    }
}

/// The first character boundary at or after `x` lies at or after `x` (when
/// `x` is within the text) and its predecessor lies before `x`.
pub proof fn lemma_ceil_char(cs: Seq<char>, x: int)
    requires
        x <= byte_len(cs),
    ensures
        0 <= ceil_char(cs, x) <= cs.len(),
        byte_off(cs, ceil_char(cs, x)) >= x,
        forall|j: int| 0 <= j < ceil_char(cs, x) ==> byte_off(cs, j) < x,
{
    lemma_ceil_prefix(cs, x, 0);
    lemma_off_end(cs);
}

proof fn lemma_ceil_prefix(cs: Seq<char>, x: int, i: int)
    requires
        0 <= i <= cs.len(),
        x <= byte_len(cs),
        forall|j: int| 0 <= j < i ==> byte_off(cs, j) < x,
    ensures
        i <= ceil_from(cs, x, i) <= cs.len(),
        byte_off(cs, ceil_from(cs, x, i)) >= x,
        forall|j: int| 0 <= j < ceil_from(cs, x, i) ==> byte_off(cs, j) < x,
    decreases cs.len() - i,
{
    lemma_off_end(cs);
    if i < cs.len() && byte_off(cs, i) < x {
        lemma_ceil_prefix(cs, x, i + 1);
    }
}

/// Snap byte position `x` (at most the byte length) forward to the first
/// character boundary: its character index and byte offset.
pub fn ceil_boundary(cs: &[char], x: usize) -> (r: (usize, usize))
    requires
        x <= byte_len(cs@),
        byte_len(cs@) <= usize::MAX,
    ensures
        r.0 as int == ceil_char(cs@, x as int),
        r.1 == byte_off(cs@, r.0 as int),
        r.0 <= cs@.len(),
{
    let mut i: usize = 0;
    let mut off: usize = 0;
    proof {
        lemma_off_end(cs@);
    }
    while i < cs.len() && off < x
        invariant
            i <= cs@.len(),
            off == byte_off(cs@, i as int),
            ceil_char(cs@, x as int) == ceil_from(cs@, x as int, i as int),
            off <= x,
            byte_len(cs@) <= usize::MAX,
        decreases cs@.len() - i,
    {
        proof {
            lemma_off_step(cs@, i as int);
            lemma_off_mono(cs@, i + 1, cs@.len() as int);
            lemma_off_end(cs@);
        }
        let w = utf8_width(cs[i]);
        i += 1;
        if off + w >= x {
            off = off + w;
            assert(ceil_from(cs@, x as int, i as int) == i as int);
            return (i, off);
        }
        off = off + w;
    }
    (i, off)
}

/// The byte offset of character `i`.
pub fn offset_of(cs: &[char], i: usize) -> (off: usize)
    requires
        i <= cs@.len(),
        byte_len(cs@) <= usize::MAX,
    ensures
        off == byte_off(cs@, i as int),
{
    let mut k: usize = 0;
    let mut off: usize = 0;
    proof {
        lemma_off_end(cs@);
    }
    while k < i
        invariant
            k <= i <= cs@.len(),
            off == byte_off(cs@, k as int),
            byte_len(cs@) <= usize::MAX,
        decreases i - k,
    {
        proof {
            lemma_off_step(cs@, k as int);
            lemma_off_mono(cs@, k + 1, cs@.len() as int);
            lemma_off_end(cs@);
        }
        off = off + utf8_width(cs[k]);
        k += 1;
    }
    off
}


/// `ceil_char` is monotone in the byte position.
pub proof fn lemma_ceil_mono(cs: Seq<char>, x: int, y: int)
    requires
        x <= y <= byte_len(cs),
    ensures
        ceil_char(cs, x) <= ceil_char(cs, y),
{
    lemma_ceil_char(cs, x);
    lemma_ceil_char(cs, y);
    if ceil_char(cs, x) > ceil_char(cs, y) {
        assert(byte_off(cs, ceil_char(cs, y)) < x);
    }
}

/// The character range a byte selection covers once clamped to the text,
/// put in order, and each end snapped forward to a character boundary.
pub open spec fn sel_chars(cs: Seq<char>, s0: int, s1: int) -> (int, int) {
    let l = byte_len(cs) as int;
    let a = if s0 < l { s0 } else { l };
    let b = if s1 < l { s1 } else { l };
    let lo = if a <= b { a } else { b };
    let hi = if a <= b { b } else { a };
    (ceil_char(cs, lo), ceil_char(cs, hi))
}

/// The byte range of `sel_chars`.
pub open spec fn sel_bytes(cs: Seq<char>, s0: int, s1: int) -> (int, int) {
    let c = sel_chars(cs, s0, s1);
    (byte_off(cs, c.0) as int, byte_off(cs, c.1) as int)
}

/// `sel_chars` gives an ordered range inside the text.
pub proof fn lemma_sel_chars(cs: Seq<char>, s0: int, s1: int)
    requires
        0 <= s0,
        0 <= s1,
    ensures
        0 <= sel_chars(cs, s0, s1).0 <= sel_chars(cs, s0, s1).1 <= cs.len(),
{
    let l = byte_len(cs) as int;
    let a = if s0 < l { s0 } else { l };
    let b = if s1 < l { s1 } else { l };
    let lo = if a <= b { a } else { b };
    let hi = if a <= b { b } else { a };
    lemma_ceil_mono(cs, lo, hi);
    lemma_ceil_char(cs, hi);
    lemma_ceil_char(cs, lo);
}

/// Clamp, order and snap a byte selection: the character range and its
/// byte range.
pub fn snap_selection(cs: &[char], len: usize, s0: usize, s1: usize) -> (r: (usize, usize, usize, usize))
    requires
        len == byte_len(cs@),
    ensures
        (r.0 as int, r.1 as int) == sel_chars(cs@, s0 as int, s1 as int),
        (r.2 as int, r.3 as int) == sel_bytes(cs@, s0 as int, s1 as int),
        r.0 <= r.1 <= cs@.len(),
        r.2 <= r.3 <= len,
{
    let a = if s0 < len { s0 } else { len };
    let b = if s1 < len { s1 } else { len };
    let lo = if a <= b { a } else { b };
    let hi = if a <= b { b } else { a };
    let (ca, oa) = ceil_boundary(cs, lo);
    let (cb, ob) = ceil_boundary(cs, hi);
    proof {
        lemma_sel_chars(cs@, s0 as int, s1 as int);
        lemma_off_mono(cs@, ca as int, cb as int);
        lemma_off_mono(cs@, cb as int, cs@.len() as int);
        lemma_off_end(cs@);
    }
    (ca, cb, oa, ob)
}

} // verus!
