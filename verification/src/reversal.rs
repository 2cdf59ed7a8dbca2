//! Bit reversal of a `w`-bit value, specified by `rev_bits` and computed
//! through the `bit_reverse` crate.

use vstd::prelude::*;
use crate::model::fits;

verus! {

/// The low `w` bits of `v` in reverse order: bit `i` of the result is bit
/// `w - 1 - i` of `v`.
pub open spec fn rev_bits(v: u64, w: u64) -> u64
    decreases w,
{
    if w == 0 {
        0
    } else {
        rev_bits(v >> 1, (w - 1) as u64) | ((v & 1) << ((w - 1) as u64))
    }
}

/// Relies on `bit_reverse::ParallelReverse` for `u64`: `swap_bits` returns its
/// argument with the order of all 64 bits reversed.
#[verifier::external_body]
fn swap_bits_u64(v: u64) -> (r: u64)
    ensures
        r == rev_bits(v, 64),
{
    bit_reverse::ParallelReverse::swap_bits(v)
}

/// A reversed `w`-bit value still occupies only `w` bits.
pub proof fn lemma_rev_fits(v: u64, w: u64)
    requires
        1 <= w <= 64,
    ensures
        fits(rev_bits(v, w), w),
    decreases w,
{
    if w == 1 {
        assert(rev_bits(v >> 1, 0) == 0);
        assert(fits(0u64 | ((v & 1) << 0u64), 1)) by (bit_vector);
    } else {
        lemma_rev_fits(v >> 1, (w - 1) as u64);
        let a = rev_bits(v >> 1, (w - 1) as u64);
        assert(fits(a | ((v & 1) << ((w - 1) as u64)), w)) by (bit_vector)
            requires
                2 <= w <= 64,
                fits(a, (w - 1) as u64),
        ;
    }
}

/// Widening the field by one bit shifts the reversed value up by one.
pub proof fn lemma_rev_widen(v: u64, w: u64)
    requires
        1 <= w <= 63,
        fits(v, w),
    ensures
        rev_bits(v, (w + 1) as u64) == rev_bits(v, w) << 1,
    decreases w,
{
    if w == 1 {
        assert(rev_bits(v, 2) == rev_bits(v, 1) << 1) by (bit_vector)
            requires
                fits(v, 1),
        ;
    } else {
        let a = rev_bits(v >> 1, (w - 1) as u64);
        assert(fits(v >> 1, (w - 1) as u64) && (((a << 1) | ((v & 1) << w)) == (a | ((v & 1) << ((
        w - 1) as u64))) << 1)) by (bit_vector)
            requires
                2 <= w <= 63,
                fits(v, w),
        ;
        lemma_rev_widen(v >> 1, (w - 1) as u64);
        assert(rev_bits(v, (w + 1) as u64) == rev_bits(v >> 1, w) | ((v & 1) << w));
        assert(rev_bits(v >> 1, w) == a << 1);
    }
}

/// The full 64-bit reversal is the `w`-bit reversal shifted to the top.
pub proof fn lemma_rev_narrow(v: u64, w: u64)
    requires
        1 <= w <= 64,
        fits(v, w),
    ensures
        rev_bits(v, 64) == rev_bits(v, w) << ((64 - w) as u64),
    decreases 64 - w,
{
    if w == 64 {
        assert(rev_bits(v, 64) == rev_bits(v, 64) << 0u64) by (bit_vector);
    } else {
        let a = rev_bits(v, w);
        assert(fits(v, (w + 1) as u64) && ((a << 1) << ((64 - (w + 1)) as u64) == a << ((64 - w)
            as u64))) by (bit_vector)
            requires
                1 <= w <= 63,
                fits(v, w),
        ;
        lemma_rev_widen(v, w);
        lemma_rev_narrow(v, (w + 1) as u64);
    }
}

/// Reversing an `x` whose top bit is clear, with bit `c` placed on top, drops
/// `c` down to bit zero of the reversal.
proof fn lemma_rev_split(x: u64, c: u64, w: u64)
    requires
        1 <= w <= 64,
        fits(x, w),
        c == 0 || c == 1,
        x & (1u64 << ((w - 1) as u64)) == 0,
    ensures
        rev_bits(x | (c << ((w - 1) as u64)), w) == rev_bits(x, w) | c,
    decreases w,
{
    let y = x | (c << ((w - 1) as u64));
    if w == 1 {
        assert(rev_bits(x | (c << 0u64), 1) == rev_bits(x, 1) | c) by (bit_vector)
            requires
                fits(x, 1),
                c == 0 || c == 1,
                x & (1u64 << 0u64) == 0,
        ;
    } else {
        let a = rev_bits(x >> 1, (w - 1) as u64);
        assert(y >> 1 == (x >> 1) | (c << ((w - 2) as u64)) && (y & 1) == (x & 1) && fits(
            x >> 1,
            (w - 1) as u64,
        ) && (x >> 1) & (1u64 << ((w - 2) as u64)) == 0 && (((a | c) | ((x & 1) << ((w - 1)
            as u64))) == (a | ((x & 1) << ((w - 1) as u64))) | c)) by (bit_vector)
            requires
                2 <= w <= 64,
                c == 0 || c == 1,
                y == x | (c << ((w - 1) as u64)),
                fits(x, w),
                x & (1u64 << ((w - 1) as u64)) == 0,
        ;
        lemma_rev_split(x >> 1, c, (w - 1) as u64);
        assert(rev_bits(y, w) == (a | c) | ((x & 1) << ((w - 1) as u64)));
    }
}

/// Reversal is an involution on `w`-bit values.
pub proof fn lemma_rev_rev(v: u64, w: u64)
    requires
        1 <= w <= 64,
        fits(v, w),
    ensures
        rev_bits(rev_bits(v, w), w) == v,
    decreases w,
{
    if w == 1 {
        assert(rev_bits(rev_bits(v, 1), 1) == v) by (bit_vector)
            requires
                fits(v, 1),
        ;
    } else {
        let a = rev_bits(v >> 1, (w - 1) as u64);
        lemma_rev_fits(v >> 1, (w - 1) as u64);
        assert(fits(a, w) && a & (1u64 << ((w - 1) as u64)) == 0 && (v & 1 == 0 || v & 1 == 1)
            && fits(v >> 1, (w - 1) as u64) && (((v >> 1) << 1) | (v & 1) == v)) by (bit_vector)
            requires
                2 <= w <= 64,
                fits(a, (w - 1) as u64),
                fits(v, w),
        ;
        lemma_rev_split(a, v & 1, w);
        assert(rev_bits(rev_bits(v, w), w) == rev_bits(a, w) | (v & 1));
        lemma_rev_widen(a, (w - 1) as u64);
        lemma_rev_rev(v >> 1, (w - 1) as u64);
        assert(rev_bits(a, w) == (v >> 1) << 1);
    }
}

/// Reverse the low `w` bits of `v`.
pub fn reverse_low_bits(v: u64, w: u64) -> (r: u64)
    requires
        1 <= w <= 64,
        fits(v, w),
    ensures
        r == rev_bits(v, w),
{
    proof {
        lemma_rev_narrow(v, w);
        lemma_rev_fits(v, w);
        let a = rev_bits(v, w);
        assert((a << ((64 - w) as u64)) >> ((64 - w) as u64) == a) by (bit_vector)
            requires
                1 <= w <= 64,
                fits(a, w),
        ;
    }
    let full = swap_bits_u64(v);
    full >> ((64 - w) as u64)
}

} // verus!
