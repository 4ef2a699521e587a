//! Bit facts about 64-bit words used as 8x8 boards.

use vstd::prelude::*;

verus! {

/// Bit `i` of a 64-bit word.
pub open spec fn bit(m: u64, i: u64) -> bool {
    (m >> i) & 1u64 == 1u64
}

/// Cells of column 0 of an 8x8 board, in row-major bit order.
pub const COL_0_MASK: u64 = 0x0101010101010101;

/// Cells of column 7 of an 8x8 board, in row-major bit order.
pub const COL_7_MASK: u64 = 0x8080808080808080;

pub proof fn lemma_bit_or(a: u64, b: u64, i: u64)
    requires
        i < 64,
    ensures
        bit(a | b, i) == (bit(a, i) || bit(b, i)),
{
    assert(((a | b) >> i) & 1u64 == 1u64 <==> ((a >> i) & 1u64 == 1u64 || (b >> i) & 1u64 == 1u64))
        by (bit_vector)
        requires
            i < 64,
    ;
}

pub proof fn lemma_bit_and(a: u64, b: u64, i: u64)
    requires
        i < 64,
    ensures
        bit(a & b, i) == (bit(a, i) && bit(b, i)),
{
    assert(((a & b) >> i) & 1u64 == 1u64 <==> ((a >> i) & 1u64 == 1u64 && (b >> i) & 1u64 == 1u64))
        by (bit_vector)
        requires
            i < 64,
    ;
}

pub proof fn lemma_bit_and_not(a: u64, b: u64, i: u64)
    requires
        i < 64,
    ensures
        bit(a & !b, i) == (bit(a, i) && !bit(b, i)),
{
    assert(((a & !b) >> i) & 1u64 == 1u64 <==> ((a >> i) & 1u64 == 1u64 && (b >> i) & 1u64 != 1u64))
        by (bit_vector)
        requires
            i < 64,
    ;
}

pub proof fn lemma_bit_single(s: u64, i: u64)
    requires
        s < 64,
        i < 64,
    ensures
        bit(1u64 << s, i) == (s == i),
{
    assert(((1u64 << s) >> i) & 1u64 == 1u64 <==> s == i) by (bit_vector)
        requires
            s < 64,
            i < 64,
    ;
}

pub proof fn lemma_bit_zero(i: u64)
    requires
        i < 64,
    ensures
        !bit(0u64, i),
{
    assert((0u64 >> i) & 1u64 != 1u64) by (bit_vector);
}

/// A bit moves one row up (to a lower index) under a right shift by eight.
pub proof fn lemma_bit_north(f: u64, i: u64)
    requires
        i < 64,
    ensures
        bit(f >> 8u64, i) == (i + 8 < 64 && bit(f, (i + 8) as u64)),
{
    assert(((f >> 8u64) >> i) & 1u64 == 1u64 <==> (i + 8 < 64 && (f >> ((i + 8) as u64)) & 1u64
        == 1u64)) by (bit_vector)
        requires
            i < 64,
    ;
}

/// A bit moves one row down under a left shift by eight.
pub proof fn lemma_bit_south(f: u64, i: u64)
    requires
        i < 64,
    ensures
        bit(f << 8u64, i) == (i >= 8 && bit(f, (i - 8) as u64)),
{
    assert(((f << 8u64) >> i) & 1u64 == 1u64 <==> (i >= 8 && (f >> ((i - 8) as u64)) & 1u64
        == 1u64)) by (bit_vector)
        requires
            i < 64,
    ;
}

/// A bit moves one column right, never out of column 7 into the next row.
pub proof fn lemma_bit_east(f: u64, i: u64)
    requires
        i < 64,
    ensures
        bit((f & !COL_7_MASK) << 1u64, i) == (i % 8 != 0 && bit(f, (i - 1) as u64)),
{
    assert((((f & !0x8080808080808080u64) << 1u64) >> i) & 1u64 == 1u64 <==> (i % 8 != 0 && (f >> ((
    i - 1) as u64)) & 1u64 == 1u64)) by (bit_vector)
        requires
            i < 64,
    ;
}

/// A bit moves one column left, never out of column 0 into the previous row.
pub proof fn lemma_bit_west(f: u64, i: u64)
    requires
        i < 64,
    ensures
        bit((f & !COL_0_MASK) >> 1u64, i) == (i % 8 != 7 && bit(f, (i + 1) as u64)),
{
    assert((((f & !0x0101010101010101u64) >> 1u64) >> i) & 1u64 == 1u64 <==> (i % 8 != 7 && (f >> ((
    i + 1) as u64)) & 1u64 == 1u64)) by (bit_vector)
        requires
            i < 64,
    ;
}

/// Setting bits never lowers a word, and a word that changes grows.
pub proof fn lemma_or_grows(a: u64, b: u64)
    ensures
        (a | b) >= a,
        (a | b) != a ==> (a | b) > a,
{
    assert((a | b) >= a) by (bit_vector);
}

/// Clearing a set bit lowers a word.
pub proof fn lemma_clear_shrinks(r: u64, f: u64, s: u64)
    requires
        s < 64,
        bit(r, s),
        bit(f, s),
    ensures
        (r & !f) < r,
{
    assert((r & !f) <= r) by (bit_vector);
    assert((r & !f) != r) by (bit_vector)
        requires
            s < 64,
            (r >> s) & 1u64 == 1u64,
            (f >> s) & 1u64 == 1u64,
    ;
}

} // verus!
