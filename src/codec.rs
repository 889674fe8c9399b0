//! Byte layouts: tree keys, sortable float bounds, and truncation of a
//! UTF-8 value on a character boundary.

use crate::order::{bytes_lt, lemma_bytes_lt_irreflexive};
use vstd::prelude::*;

verus! {

/// Longest facet value, in bytes, kept in a key.
pub const MAX_FACET_VALUE_LENGTH: usize = 468;

/// The key of a tree node: big-endian field id, level, then the bound.
pub open spec fn key_bytes(fid: u16, level: u8, bound: Seq<u8>) -> Seq<u8> {
    seq![(fid >> 8u16) as u8, (fid & 0xffu16) as u8, level] + bound
}

/// Encodes the key of node `(fid, level, bound)`.
pub fn encode_key(fid: u16, level: u8, bound: &[u8]) -> (r: Vec<u8>)
    ensures
        r@ == key_bytes(fid, level, bound@),
{
    let mut r: Vec<u8> = Vec::new();
    r.push((fid >> 8u16) as u8);
    r.push((fid & 0xffu16) as u8);
    r.push(level);
    let mut i: usize = 0;
    while i < bound.len()
        invariant
            i <= bound@.len(),
            r@ == seq![(fid >> 8u16) as u8, (fid & 0xffu16) as u8, level] + bound@.subrange(
                0,
                i as int,
            ),
        decreases bound.len() - i,
    {
        r.push(bound[i]);
        i = i + 1;
        assert(bound@.subrange(0, i as int) =~= bound@.subrange(0, i - 1).push(bound[i - 1]));
    }
    assert(bound@.subrange(0, bound@.len() as int) =~= bound@);
    r
}

/// Splits a key into field id, level and bound; `None` when it is shorter
/// than three bytes.
pub fn decode_key(key: &[u8]) -> (r: Option<(u16, u8, Vec<u8>)>)
    ensures
        key@.len() < 3 <==> r is None,
        r matches Some((fid, level, bound)) ==> key_bytes(fid, level, bound@) == key@,
{
    if key.len() < 3 {
        return None;
    }
    let hi = key[0];
    let lo = key[1];
    let fid: u16 = (hi as u16) * 256 + (lo as u16);
    let level = key[2];
    let mut bound: Vec<u8> = Vec::new();
    let mut i: usize = 3;
    while i < key.len()
        invariant
            3 <= i <= key@.len(),
            bound@ == key@.subrange(3, i as int),
        decreases key.len() - i,
    {
        bound.push(key[i]);
        i = i + 1;
        assert(key@.subrange(3, i as int) =~= key@.subrange(3, i - 1).push(key[i - 1]));
    }
    assert((fid >> 8u16) as u8 == hi && (fid & 0xffu16) as u8 == lo) by (bit_vector)
        requires
            fid == (hi as u16) * 256 + (lo as u16),
    ;
    assert(key_bytes(fid, level, bound@) =~= key@);
    Some((fid, level, bound))
}

/// Decoding an encoded key gives back its parts.
pub proof fn lemma_key_round_trip(fid: u16, level: u8, bound: Seq<u8>, fid2: u16, level2: u8, bound2: Seq<u8>)
    requires
        key_bytes(fid, level, bound) == key_bytes(fid2, level2, bound2),
    ensures
        fid == fid2,
        level == level2,
        bound == bound2,
{
    let k = key_bytes(fid, level, bound);
    let k2 = key_bytes(fid2, level2, bound2);
    assert(k[0] == k2[0] && k[1] == k2[1] && k[2] == k2[2]);
    let a = (fid >> 8u16) as u8;
    let b = (fid & 0xffu16) as u8;
    assert(fid == (a as u16) * 256 + (b as u16)) by (bit_vector)
        requires
            a == (fid >> 8u16) as u8,
            b == (fid & 0xffu16) as u8,
    ;
    assert(fid2 == (a as u16) * 256 + (b as u16)) by (bit_vector)
        requires
            a == (fid2 >> 8u16) as u8,
            b == (fid2 & 0xffu16) as u8,
    ;
    assert(bound =~= k.subrange(3, k.len() as int));
    assert(bound2 =~= k2.subrange(3, k2.len() as int));
}

/// The bit pattern of a finite double: its exponent is not all ones.
pub open spec fn finite_bits(bits: u64) -> bool {
    (bits >> 52u64) & 0x7ffu64 != 0x7ffu64
}

/// Maps the bits of a finite double to a `u64` whose order is the numeric
/// order of the doubles: `-0.0` as `+0.0`, negatives with all bits
/// flipped, positives with the sign bit set.
pub open spec fn sortable_u64(bits: u64) -> u64 {
    let b = if bits == 0x8000_0000_0000_0000u64 { 0u64 } else { bits };
    if b >> 63u64 == 1u64 { !b } else { b | 0x8000_0000_0000_0000u64 }
}

/// The eight big-endian bytes of `x`.
pub open spec fn be_bytes(x: u64) -> Seq<u8> {
    seq![
        (x >> 56u64) as u8,
        (x >> 48u64) as u8,
        (x >> 40u64) as u8,
        (x >> 32u64) as u8,
        (x >> 24u64) as u8,
        (x >> 16u64) as u8,
        (x >> 8u64) as u8,
        x as u8,
    ]
}

/// Where a finite double stands in numeric order, read from its bits:
/// the magnitude bits, negated when the sign bit is set, so that `-0.0`
/// and `+0.0` both stand at 0. Finite doubles compare as their ranks do.
pub open spec fn float_rank(bits: u64) -> int {
    let mag = (bits & 0x7fff_ffff_ffff_ffffu64) as int;
    if bits >> 63u64 == 1u64 {
        -mag
    } else {
        mag
    }
}

proof fn lemma_sortable_value(a: u64)
    ensures
        sortable_u64(a) as int == if float_rank(a) < 0 {
            0x8000_0000_0000_0000int + float_rank(a) - 1
        } else {
            0x8000_0000_0000_0000int + float_rank(a)
        },
{
    let m = a & 0x7fff_ffff_ffff_ffffu64;
    assert(m <= 0x7fff_ffff_ffff_ffffu64) by (bit_vector)
        requires
            m == a & 0x7fff_ffff_ffff_ffffu64,
    ;
    if a == 0x8000_0000_0000_0000u64 {
        assert(a & 0x7fff_ffff_ffff_ffffu64 == 0u64) by (bit_vector)
            requires
                a == 0x8000_0000_0000_0000u64,
        ;
        assert(0u64 | 0x8000_0000_0000_0000u64 == 0x8000_0000_0000_0000u64) by (bit_vector);
        assert((0u64 >> 63u64) == 0u64) by (bit_vector);
    } else if a >> 63u64 == 1u64 {
        assert(!a == 0x7fff_ffff_ffff_ffffu64 - (a & 0x7fff_ffff_ffff_ffffu64)) by (bit_vector)
            requires
                a >> 63u64 == 1u64,
        ;
        if m == 0 {
            assert(a == 0x8000_0000_0000_0000u64) by (bit_vector)
                requires
                    a >> 63u64 == 1u64,
                    a & 0x7fff_ffff_ffff_ffffu64 == 0u64,
            ;
        }
    } else {
        assert(a >> 63u64 == 0u64) by (bit_vector)
            requires
                a >> 63u64 != 1u64,
        ;
        assert(a | 0x8000_0000_0000_0000u64 == (a & 0x7fff_ffff_ffff_ffffu64) + 0x8000_0000_0000_0000u64) by (bit_vector)
            requires
                a >> 63u64 == 0u64,
        ;
    }
}

/// Bounds of doubles follow numeric order: the encoding of one double is
/// below that of another exactly when its rank is, and equal exactly when
/// the ranks are, which makes `-0.0` and `+0.0` one bound.
pub proof fn lemma_sortable_follows_rank(a: u64, b: u64)
    ensures
        float_rank(a) < float_rank(b) <==> sortable_u64(a) < sortable_u64(b),
        float_rank(a) == float_rank(b) <==> sortable_u64(a) == sortable_u64(b),
{
    lemma_sortable_value(a);
    lemma_sortable_value(b);
}

proof fn lemma_lex_step(s: Seq<u8>, t: Seq<u8>, k: int)
    requires
        s.len() == t.len(),
        0 <= k < s.len(),
    ensures
        bytes_lt(s.skip(k), t.skip(k)) == (s[k] < t[k] || (s[k] == t[k] && bytes_lt(
            s.skip(k + 1),
            t.skip(k + 1),
        ))),
{
    assert(s.skip(k).drop_first() =~= s.skip(k + 1));
    assert(t.skip(k).drop_first() =~= t.skip(k + 1));
    assert(s.skip(k)[0] == s[k] && t.skip(k)[0] == t[k]);
}

/// Big-endian bytes compare as the numbers they encode.
pub proof fn lemma_be_bytes_order(x: u64, y: u64)
    ensures
        bytes_lt(be_bytes(x), be_bytes(y)) <==> x < y,
{
    let s = be_bytes(x);
    let t = be_bytes(y);
    lemma_lex_step(s, t, 0);
    lemma_lex_step(s, t, 1);
    lemma_lex_step(s, t, 2);
    lemma_lex_step(s, t, 3);
    lemma_lex_step(s, t, 4);
    lemma_lex_step(s, t, 5);
    lemma_lex_step(s, t, 6);
    lemma_lex_step(s, t, 7);
    assert(s.skip(0) =~= s);
    assert(t.skip(0) =~= t);
    assert(s.skip(8).len() == 0 && t.skip(8).len() == 0);
    assert(!bytes_lt(s.skip(8), t.skip(8)));
    let (x0, x1, x2, x3, x4, x5, x6, x7) = ((x >> 56u64) as u8, (x >> 48u64) as u8, (x >> 40u64) as u8, (x >> 32u64) as u8, (x >> 24u64) as u8, (x >> 16u64) as u8, (x >> 8u64) as u8, x as u8);
    let (y0, y1, y2, y3, y4, y5, y6, y7) = ((y >> 56u64) as u8, (y >> 48u64) as u8, (y >> 40u64) as u8, (y >> 32u64) as u8, (y >> 24u64) as u8, (y >> 16u64) as u8, (y >> 8u64) as u8, y as u8);
    assert(x < y <==> (x0 < y0 || (x0 == y0 && (x1 < y1 || (x1 == y1 && (x2 < y2 || (x2 == y2 && (x3 < y3
        || (x3 == y3 && (x4 < y4 || (x4 == y4 && (x5 < y5 || (x5 == y5 && (x6 < y6 || (x6 == y6 && x7
        < y7))))))))))))))) by (bit_vector)
        requires
            x0 == (x >> 56u64) as u8,
            x1 == (x >> 48u64) as u8,
            x2 == (x >> 40u64) as u8,
            x3 == (x >> 32u64) as u8,
            x4 == (x >> 24u64) as u8,
            x5 == (x >> 16u64) as u8,
            x6 == (x >> 8u64) as u8,
            x7 == x as u8,
            y0 == (y >> 56u64) as u8,
            y1 == (y >> 48u64) as u8,
            y2 == (y >> 40u64) as u8,
            y3 == (y >> 32u64) as u8,
            y4 == (y >> 24u64) as u8,
            y5 == (y >> 16u64) as u8,
            y6 == (y >> 8u64) as u8,
            y7 == y as u8,
    ;
}

/// The bounds of two doubles sort as the doubles do: the encoding of one
/// is below that of the other, as bytes, exactly when its rank is below,
/// and the encodings are equal exactly when the ranks are.
pub proof fn lemma_float_bounds_order(a: u64, b: u64)
    ensures
        float_rank(a) < float_rank(b) <==> bytes_lt(be_bytes(sortable_u64(a)), be_bytes(sortable_u64(b))),
        float_rank(a) == float_rank(b) <==> be_bytes(sortable_u64(a)) == be_bytes(sortable_u64(b)),
{
    lemma_sortable_follows_rank(a, b);
    lemma_be_bytes_order(sortable_u64(a), sortable_u64(b));
    lemma_be_bytes_order(sortable_u64(b), sortable_u64(a));
    lemma_bytes_lt_irreflexive(be_bytes(sortable_u64(a)));
}

/// Encodes the bits of a finite double as a bound whose byte order is the
/// numeric order.
pub fn encode_f64_bits(bits: u64) -> (r: Vec<u8>)
    requires
        finite_bits(bits),
    ensures
        r@ == be_bytes(sortable_u64(bits)),
{
    let b: u64 = if bits == 0x8000_0000_0000_0000u64 { 0 } else { bits };
    let x: u64 = if b >> 63u64 == 1u64 { !b } else { b | 0x8000_0000_0000_0000u64 };
    let mut r: Vec<u8> = Vec::new();
    r.push((x >> 56u64) as u8);
    r.push((x >> 48u64) as u8);
    r.push((x >> 40u64) as u8);
    r.push((x >> 32u64) as u8);
    r.push((x >> 24u64) as u8);
    r.push((x >> 16u64) as u8);
    r.push((x >> 8u64) as u8);
    r.push(x as u8);
    assert(r@ =~= be_bytes(sortable_u64(bits)));
    r
}

/// A UTF-8 continuation byte, which never starts a character.
pub open spec fn is_continuation(b: u8) -> bool {
    b & 0xc0u8 == 0x80u8
}

/// `k` is a character boundary of `s`: its end, or a byte that starts a
/// character.
pub open spec fn is_char_boundary(s: Seq<u8>, k: int) -> bool {
    k == s.len() || (0 <= k < s.len() && !is_continuation(s[k]))
}

/// The largest character boundary of `s` not beyond `k`.
pub open spec fn boundary_at_most(s: Seq<u8>, k: int) -> int
    decreases k,
{
    if k <= 0 || is_char_boundary(s, k) {
        k
    } else {
        boundary_at_most(s, k - 1)
    }
}

/// `s` cut to at most `max` bytes on a character boundary.
pub open spec fn truncated(s: Seq<u8>, max: int) -> Seq<u8> {
    if s.len() <= max {
        s
    } else {
        s.subrange(0, boundary_at_most(s, max))
    }
}

/// The length to which `s` is cut to fit in `max` bytes: the largest
/// character boundary not beyond `max` (the whole of `s` when it fits).
pub fn truncated_len(s: &[u8], max: usize) -> (k: usize)
    ensures
        k <= max || k == 0,
        k <= s@.len(),
        s@.len() <= max ==> k == s@.len(),
        k == 0 || is_char_boundary(s@, k as int),
        forall|j: int| k < j <= max && j <= s@.len() ==> !is_char_boundary(s@, j),
        k == (if s@.len() <= max { s@.len() as int } else { boundary_at_most(s@, max as int) }),
{
    if s.len() <= max {
        return s.len();
    }
    let mut k: usize = max;
    while k > 0 && s[k] & 0xc0u8 == 0x80u8
        invariant
            k <= max < s@.len(),
            forall|j: int| k < j <= max ==> !is_char_boundary(s@, j),
            boundary_at_most(s@, max as int) == boundary_at_most(s@, k as int),
        decreases k,
    {
        k = k - 1;
    }
    proof {
        let b = boundary_at_most(s@, max as int);
        assert(0 <= b <= max) by {
            lemma_boundary_at_most_range(s@, max as int);
        }
    }
    k
}

proof fn lemma_boundary_at_most_range(s: Seq<u8>, k: int)
    requires
        k >= 0,
    ensures
        0 <= boundary_at_most(s, k) <= k,
    decreases k,
{
    if k > 0 && !is_char_boundary(s, k) {
        lemma_boundary_at_most_range(s, k - 1);
    }
}

/// Cuts a UTF-8 value to at most `max` bytes on a character boundary.
pub fn truncate_value(s: &[u8], max: usize) -> (r: Vec<u8>)
    ensures
        r@.len() <= max || r@.len() == 0,
        r@ == truncated(s@, max as int),
        r@ == s@.subrange(0, r@.len() as int),
        s@.len() <= max ==> r@ == s@,
        r@.len() == 0 || is_char_boundary(s@, r@.len() as int),
        forall|j: int| r@.len() < j <= max && j <= s@.len() ==> !is_char_boundary(s@, j),
{
    let k = truncated_len(s, max);
    let mut r: Vec<u8> = Vec::new();
    let mut i: usize = 0;
    while i < k
        invariant
            k <= s@.len(),
            i <= k,
            r@ == s@.subrange(0, i as int),
        decreases k - i,
    {
        r.push(s[i]);
        i = i + 1;
        assert(s@.subrange(0, i as int) =~= s@.subrange(0, i - 1).push(s[i - 1]));
    }
    assert(s@.len() <= max ==> s@.subrange(0, k as int) =~= s@);
    assert(r@ =~= truncated(s@, max as int));
    r
}

} // verus!
