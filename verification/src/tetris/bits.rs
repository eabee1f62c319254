//! Column bitmaps: one bit per row, bit 0 at the floor.

use vstd::prelude::*;
use vstd::std_specs::bits::{axiom_u64_trailing_zeros, u64_trailing_zeros};

verus! {

/// True if bit `y` of a column bitmap is set.
pub open spec fn bit(col: u64, y: int) -> bool {
    0 <= y < 64 && (col >> (y as u64)) & 1u64 == 1u64
}

/// The number of set bits of `lines` below position `y`.
pub open spec fn ones_below(lines: u64, y: int) -> int
    decreases y,
{
    if y <= 0 {
        0
    } else {
        ones_below(lines, y - 1) + if bit(lines, y - 1) {
            1int
        } else {
            0int
        }
    }
}

pub proof fn lemma_bit_test(col: u64, y: u64)
    requires
        y < 64,
    ensures
        (col & (1u64 << y) > 0) == bit(col, y as int),
{
    assert((col & (1u64 << y) > 0) == ((col >> y) & 1u64 == 1u64)) by (bit_vector)
        requires
            y < 64,
    ;
}

pub proof fn lemma_bit_or(col: u64, d: u64, p: int)
    requires
        d < 64,
    ensures
        bit(col | (1u64 << d), p) == (p == d || bit(col, p)),
{
    if 0 <= p < 64 {
        let q = p as u64;
        assert(((col | (1u64 << d)) >> q) & 1u64 == 1u64 <==> (q == d || (col >> q) & 1u64 == 1u64))
            by (bit_vector)
            requires
                d < 64,
                q < 64,
        ;
    }
}

pub proof fn lemma_bit_and(a: u64, b: u64, p: int)
    ensures
        bit(a & b, p) == (bit(a, p) && bit(b, p)),
{
    if 0 <= p < 64 {
        let q = p as u64;
        assert(((a & b) >> q) & 1u64 == 1u64 <==> ((a >> q) & 1u64 == 1u64 && (b >> q) & 1u64
            == 1u64)) by (bit_vector)
            requires
                q < 64,
        ;
    }
}

pub proof fn lemma_bit_zero(p: int)
    ensures
        !bit(0u64, p),
        0 <= p < 64 ==> bit(u64::MAX, p),
{
    if 0 <= p < 64 {
        let q = p as u64;
        assert((0u64 >> q) & 1u64 == 0u64) by (bit_vector)
            requires
                q < 64,
        ;
        assert((0xffff_ffff_ffff_ffffu64 >> q) & 1u64 == 1u64) by (bit_vector)
            requires
                q < 64,
        ;
    }
}

pub proof fn lemma_bit_nonzero(col: u64) -> (p: int)
    requires
        col != 0,
    ensures
        bit(col, p),
{
    axiom_u64_trailing_zeros(col);
    u64_trailing_zeros(col) as int
}

pub proof fn lemma_bit_single(v: u64, x: u64, p: int)
    requires
        x < 64,
        v == 0 || v == 1,
    ensures
        bit(v << x, p) == (v == 1 && p == x),
{
    if 0 <= p < 64 {
        let q = p as u64;
        assert(((v << x) >> q) & 1u64 == 1u64 <==> (v == 1 && q == x)) by (bit_vector)
            requires
                x < 64,
                q < 64,
                v == 0 || v == 1,
        ;
    }
}

pub proof fn lemma_bit_or_any(a: u64, b: u64, p: int)
    ensures
        bit(a | b, p) == (bit(a, p) || bit(b, p)),
{
    if 0 <= p < 64 {
        let q = p as u64;
        assert(((a | b) >> q) & 1u64 == 1u64 <==> ((a >> q) & 1u64 == 1u64 || (b >> q) & 1u64
            == 1u64)) by (bit_vector)
            requires
                q < 64,
        ;
    }
}

pub proof fn lemma_bit_low(col: u64, y: u64)
    requires
        y < 64,
    ensures
        ((col >> y) & 1u64 == 1u64) || ((col >> y) & 1u64 == 0u64),
{
    assert(((col >> y) & 1u64 == 1u64) || ((col >> y) & 1u64 == 0u64)) by (bit_vector);
}

/// There are at most `y2 - y1` set bits between two positions, and fewer if
/// the lower position is clear.
pub proof fn lemma_ones_below_bounds(lines: u64, y1: int, y2: int)
    requires
        0 <= y1 <= y2,
    ensures
        0 <= ones_below(lines, y1) <= y1,
        ones_below(lines, y1) <= ones_below(lines, y2),
        ones_below(lines, y2) - ones_below(lines, y1) <= y2 - y1,
        y1 < y2 && !bit(lines, y1) ==> ones_below(lines, y2) - ones_below(lines, y1) < y2 - y1,
    decreases y2,
{
    if y1 < y2 {
        lemma_ones_below_bounds(lines, y1, y2 - 1);
    } else if y1 > 0 {
        lemma_ones_below_bounds(lines, y1 - 1, y1 - 1);
    }
}

/// Removes from a column bitmap the rows set in `lines`; the rows above a
/// removed row move down, and the top is filled with free cells.
pub fn clear_lines(col: &mut u64, lines: u64)
    ensures
        forall|y: int|
            0 <= y < 64 && !bit(lines, y) ==> bit(*final(col), y - ones_below(lines, y)) == bit(
                *old(col),
                y,
            ),
        forall|p: int| 64 - ones_below(lines, 64) <= p ==> !bit(*final(col), p),
{
    let src: u64 = *col;
    let mut out: u64 = 0;
    let mut dst: u32 = 0;
    let mut y: u32 = 0;
    proof {
        assert forall|p: int| !bit(0u64, p) by {
            lemma_bit_zero(p);
        }
    }
    while y < 64
        invariant
            y <= 64,
            dst as int == y - ones_below(lines, y as int),
            forall|k: int|
                0 <= k < y && !bit(lines, k) ==> bit(out, k - ones_below(lines, k)) == bit(src, k),
            forall|p: int| dst <= p ==> !bit(out, p),
        decreases 64 - y,
    {
        proof {
            lemma_ones_below_bounds(lines, y as int, y as int);
            lemma_bit_low(lines, y as u64);
            lemma_bit_low(src, y as u64);
        }
        if (lines >> (y as u64)) & 1u64 == 0 {
            let ghost before = out;
            if (src >> (y as u64)) & 1u64 == 1 {
                out = out | (1u64 << (dst as u64));
            }
            proof {
                assert forall|k: int| 0 <= k < y + 1 && !bit(lines, k) implies bit(
                    out,
                    k - ones_below(lines, k),
                ) == bit(src, k) by {
                    lemma_bit_or(before, dst as u64, k - ones_below(lines, k));
                    if k < y {
                        lemma_ones_below_bounds(lines, k, y as int);
                    }
                }
                assert forall|p: int| dst + 1 <= p implies !bit(out, p) by {
                    lemma_bit_or(before, dst as u64, p);
                }
            }
            dst = dst + 1;
        }
        y = y + 1;
    }
    *col = out;
}

/// Counts the rows set in `lines`.
pub fn count_lines(lines: u64) -> (r: u32)
    ensures
        r as int == ones_below(lines, 64),
        r <= 64,
{
    let mut n: u32 = 0;
    let mut y: u32 = 0;
    while y < 64
        invariant
            y <= 64,
            n as int == ones_below(lines, y as int),
            n <= y,
        decreases 64 - y,
    {
        proof {
            lemma_bit_low(lines, y as u64);
        }
        if (lines >> (y as u64)) & 1u64 == 1 {
            n = n + 1;
        }
        y = y + 1;
    }
    n
}

/// Two bitmaps with the same bits are the same.
pub proof fn lemma_bits_determine(a: u64, b: u64)
    requires
        forall|y: int| 0 <= y < 64 ==> bit(a, y) == bit(b, y),
    ensures
        a == b,
{
    if a != b {
        let c = a ^ b;
        assert(a ^ b != 0) by (bit_vector)
            requires
                a != b,
        ;
        let p = lemma_bit_nonzero(c);
        let q = p as u64;
        assert(((a ^ b) >> q) & 1u64 == 1u64 ==> ((a >> q) & 1u64 == 1u64) != ((b >> q) & 1u64
            == 1u64)) by (bit_vector)
            requires
                q < 64,
        ;
        assert(bit(a, p) != bit(b, p));
    }
}

} // verus!
