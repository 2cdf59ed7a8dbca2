//! Table construction for the table-driven engines, and its correctness
//! argument: every generated entry equals what the bitwise recurrence
//! computes for the corresponding byte pattern.

use vstd::prelude::*;
use vstd::pervasive::VecAdditionalExecFns;
use crate::hasher::{lemma_eff_poly_fits, spec_eff_poly};
use crate::model::{
    byte_in, crc_fold, feed64, fits, idx_byte, lemma_stepn_add, lemma_stepn_fits,
    lemma_stepn_xor, lemma_stepn_zero, shift_out, step64, stepn64, table_val, w_mask, width_mask,
};
use crate::polynomial::{CrcPoly, CrcPolynomial, Reflect};
use crate::reversal::reverse_low_bits;
use crate::width::CrcWord;

verus! {

/// XOR with zero is the identity.
pub proof fn lemma_xor_zero()
    by (bit_vector)
    ensures
        forall|x: u64| #[trigger] (0u64 ^ x) == x,
        forall|x: u64| #[trigger] (x ^ 0u64) == x,
{
}

/// Shifting by zero changes nothing.
proof fn lemma_shift_zero(x: u64)
    by (bit_vector)
    ensures
        x >> 0u64 == x,
        x << 0u64 == x,
{
}

/// Small powers of two, as the table indices need them.
proof fn lemma_pow2_small()
    by (bit_vector)
    ensures
        1u64 << 0u64 == 1,
        1u64 << 1u64 == 2,
        1u64 << 7u64 == 128,
        1u64 << 8u64 == 256,
{
}

/// Bounds and cast facts for a power-of-two byte index.
proof fn lemma_pow2_facts(k: u64)
    by (bit_vector)
    requires
        k <= 7,
    ensures
        1 <= 1u64 << k,
        1u64 << k <= 128,
        (1u64 << k) as usize == 1u64 << k,
        ((1u64 << k) as u8) as u64 == 1u64 << k,
{
}

/// Distinct exponents give distinct powers of two.
proof fn lemma_pow2_ne(p: u64, k: u64)
    by (bit_vector)
    requires
        p <= 7,
        k <= 7,
        p != k,
    ensures
        1u64 << p != 1u64 << k,
{
}

/// A larger exponent at least doubles the power.
proof fn lemma_pow2_lt(e: u64, p: u64)
    by (bit_vector)
    requires
        e < p <= 7,
    ensures
        2 * (1u64 << e) <= 1u64 << p,
{
}

/// Doubling steps one exponent up.
proof fn lemma_pow2_double(e: u64)
    by (bit_vector)
    requires
        1 <= e <= 8,
    ensures
        1u64 << e == (1u64 << ((e - 1) as u64)) * 2,
{
}

/// Cast facts for the combine step of the doubling trick: a power of two
/// XORed with a smaller index is their sum, inside one byte.
proof fn lemma_byte_split(e: u64, i: u64, j: u64)
    by (bit_vector)
    requires
        i == 1u64 << e,
        1 <= e <= 7,
        1 <= j < i,
    ensures
        i + j < 256,
        (i + j) as usize == i + j,
        ((i + j) as u8) == (i as u8) ^ (j as u8),
        ((i + j) as u8) as u64 == i + j,
        (j as u8) as u64 == j,
        (i as u8) as u64 == i,
{
}

/// Peel the first step off a step chain.
pub proof fn lemma_stepn_peel(w: u64, refl: bool, poly: u64, c: u64, n: u64)
    requires
        8 <= w <= 64,
        1 <= n,
    ensures
        stepn64(w, refl, poly, c, n) == stepn64(w, refl, poly, step64(w, refl, poly, c), (n - 1) as u64),
{
    lemma_stepn_add(w, refl, poly, c, 1, (n - 1) as u64);
    assert(stepn64(w, refl, poly, c, 1) == step64(w, refl, poly, stepn64(w, refl, poly, c, 0)));
}

/// In the reflected order, a value with `n` trailing zero bits just shifts
/// right for `n` steps.
pub proof fn lemma_stepn_shift_right(w: u64, poly: u64, c: u64, n: u64)
    requires
        8 <= w <= 64,
        n <= 8,
        c & (((1u64 << n) - 1) as u64) == 0,
    ensures
        stepn64(w, true, poly, c, n) == c >> n,
    decreases n,
{
    if n == 0 {
        lemma_shift_zero(c);
    } else {
        assert(step64(w, true, poly, c) == c >> 1 && (c >> 1) & (((1u64 << ((n - 1) as u64)) - 1) as u64)
            == 0 && (c >> 1) >> ((n - 1) as u64) == c >> n) by (bit_vector)
            requires
                1 <= n <= 8,
                8 <= w <= 64,
                c & (((1u64 << n) - 1) as u64) == 0,
        ;
        lemma_stepn_peel(w, true, poly, c, n);
        lemma_stepn_shift_right(w, poly, c >> 1, (n - 1) as u64);
    }
}

/// In the non-reflected order, a value whose top `n` bits (inside the `w`-bit
/// register) are zero just shifts left for `n` steps.
pub proof fn lemma_stepn_shift_left(w: u64, poly: u64, c: u64, n: u64)
    requires
        8 <= w <= 64,
        n <= 8,
        fits(c, w),
        c & ((((1u64 << n) - 1) as u64) << ((w - n) as u64)) == 0,
    ensures
        stepn64(w, false, poly, c, n) == (c << n) & w_mask(w),
    decreases n,
{
    if n == 0 {
        lemma_shift_zero(c);
    } else {
        let c1 = (c << 1) & w_mask(w);
        assert(step64(w, false, poly, c) == c1 && fits(c1, w) && c1 & ((((1u64 << ((n - 1) as u64))
            - 1) as u64) << ((w - (n - 1)) as u64)) == 0 && ((c1 << ((n - 1) as u64)) & w_mask(w)) == ((c
            << n) & w_mask(w))) by (bit_vector)
            requires
                1 <= n <= 8,
                8 <= w <= 64,
                fits(c, w),
                c & ((((1u64 << n) - 1) as u64) << ((w - n) as u64)) == 0,
                c1 == (c << 1) & w_mask(w),
        ;
        lemma_stepn_peel(w, false, poly, c, n);
        lemma_stepn_shift_left(w, poly, c1, (n - 1) as u64);
    }
}

/// A zero byte enters the register as zero.
pub proof fn lemma_byte_in_zero(w: u64, refl: bool)
    by (bit_vector)
    requires
        8 <= w <= 64,
    ensures
        byte_in(w, refl, 0) == 0,
{
}

/// What the base table means at the byte level: entry `v` is the bitwise CRC
/// of the single byte `v`, computed from register zero.
pub proof fn lemma_table_val_single_byte(w: u64, refl: bool, poly: u64, v: u8)
    requires
        8 <= w <= 64,
    ensures
        crc_fold(w, refl, poly, 0, seq![v]) == table_val(w, refl, poly, v),
{
    let s = seq![v];
    assert(s.len() == 1 && s[0] == v);
    assert(s.subrange(1, 1) =~= Seq::<u8>::empty());
    assert(crc_fold(w, refl, poly, 0, s) == crc_fold(
        w,
        refl,
        poly,
        feed64(w, refl, poly, 0, v),
        s.subrange(1, 1),
    ));
}

/// Table entries are linear over XOR of byte values.
pub proof fn lemma_table_val_xor(w: u64, refl: bool, poly: u64, v1: u8, v2: u8)
    requires
        8 <= w <= 64,
    ensures
        table_val(w, refl, poly, v1 ^ v2) == table_val(w, refl, poly, v1) ^ table_val(w, refl, poly, v2),
{
    lemma_xor_zero();
    assert(byte_in(w, refl, v1 ^ v2) == byte_in(w, refl, v1) ^ byte_in(w, refl, v2)) by (bit_vector)
        requires
            8 <= w <= 64,
    ;
    lemma_stepn_xor(w, refl, poly, byte_in(w, refl, v1), byte_in(w, refl, v2), 8);
}

/// A reflected single-bit byte slides down to bit zero in as many steps.
proof fn lemma_bit_slide_ref(w: u64, poly: u64, j: u64)
    requires
        8 <= w <= 64,
        j <= 7,
    ensures
        stepn64(w, true, poly, 1u64 << j, j) == 1,
    decreases j,
{
    if j > 0 {
        assert(step64(w, true, poly, 1u64 << j) == 1u64 << ((j - 1) as u64)) by (bit_vector)
            requires
                1 <= j <= 7,
        ;
        lemma_stepn_peel(w, true, poly, 1u64 << j, j);
        lemma_bit_slide_ref(w, poly, (j - 1) as u64);
    } else {
        lemma_pow2_small();
    }
}

/// What a reflected base-table seed entry holds: the table value of the
/// single-bit byte `1 << k` is the polynomial pushed through `7 - k` steps.
pub proof fn lemma_seed_ref(w: u64, poly: u64, k: u64)
    requires
        8 <= w <= 64,
        k <= 7,
    ensures
        table_val(w, true, poly, (1u64 << k) as u8) == stepn64(w, true, poly, poly, (7 - k) as u64),
{
    lemma_xor_zero();
    let v = (1u64 << k) as u8;
    assert(v as u64 == 1u64 << k && byte_in(w, true, v) == 1u64 << k && step64(w, true, poly, 1)
        == poly) by (bit_vector)
        requires
            8 <= w <= 64,
            k <= 7,
            v == (1u64 << k) as u8,
    ;
    assert(table_val(w, true, poly, v) == stepn64(w, true, poly, 1u64 << k, 8));
    lemma_stepn_add(w, true, poly, 1u64 << k, k, (8 - k) as u64);
    lemma_bit_slide_ref(w, poly, k);
    assert(stepn64(w, true, poly, 1u64 << k, 8) == stepn64(w, true, poly, 1, (8 - k) as u64));
    lemma_stepn_peel(w, true, poly, 1, (8 - k) as u64);
}

/// A table entry fits the register width.
pub proof fn lemma_table_val_fits(w: u64, refl: bool, poly: u64, v: u8)
    requires
        8 <= w <= 64,
        fits(poly, w),
    ensures
        fits(table_val(w, refl, poly, v), w),
{
    lemma_xor_zero();
    assert(fits(byte_in(w, refl, v), w)) by (bit_vector)
        requires
            8 <= w <= 64,
    ;
    lemma_stepn_fits(w, refl, poly, byte_in(w, refl, v), 8);
}

/// Eight shift steps split into the shifted-out rest of the register and the
/// eight steps of the byte that left: the slicing decomposition.
pub proof fn lemma_step8_decomp(w: u64, refl: bool, poly: u64, c: u64)
    requires
        8 <= w <= 64,
        fits(c, w),
    ensures
        stepn64(w, refl, poly, c, 8) == shift_out(w, refl, c) ^ stepn64(
            w,
            refl,
            poly,
            byte_in(w, refl, idx_byte(w, refl, c)),
            8,
        ),
{
    let bpart = byte_in(w, refl, idx_byte(w, refl, c));
    let rest = c ^ bpart;
    lemma_stepn_xor(w, refl, poly, rest, bpart, 8);
    assert(rest ^ bpart == c) by (bit_vector)
        requires
            8 <= w <= 64,
            fits(c, w),
            bpart == byte_in(w, refl, idx_byte(w, refl, c)),
            rest == c ^ bpart,
    ;
    if refl {
        assert(rest & (((1u64 << 8u64) - 1) as u64) == 0 && rest >> 8 == c >> 8) by (bit_vector)
            requires
                8 <= w <= 64,
                fits(c, w),
                bpart == byte_in(w, true, idx_byte(w, true, c)),
                rest == c ^ bpart,
        ;
        lemma_stepn_shift_right(w, poly, rest, 8);
    } else {
        assert(fits(rest, w) && rest & ((((1u64 << 8u64) - 1) as u64) << ((w - 8) as u64)) == 0
            && ((rest << 8) & w_mask(w)) == ((c << 8) & w_mask(w))) by (bit_vector)
            requires
                8 <= w <= 64,
                fits(c, w),
                bpart == byte_in(w, false, idx_byte(w, false, c)),
                rest == c ^ bpart,
        ;
        lemma_stepn_shift_left(w, poly, rest, 8);
    }
}

/// One byte-feed in table form: shift the register by a byte and XOR the base
/// table entry selected by the departing byte folded with the input byte.
pub proof fn lemma_feed_table(w: u64, refl: bool, poly: u64, c: u64, b: u8)
    requires
        8 <= w <= 64,
        fits(c, w),
    ensures
        feed64(w, refl, poly, c, b) == shift_out(w, refl, c) ^ table_val(
            w,
            refl,
            poly,
            idx_byte(w, refl, c) ^ b,
        ),
{
    lemma_xor_zero();
    let x = c ^ byte_in(w, refl, b);
    assert(fits(x, w) && shift_out(w, refl, x) == shift_out(w, refl, c) && idx_byte(w, refl, x)
        == idx_byte(w, refl, c) ^ b) by (bit_vector)
        requires
            8 <= w <= 64,
            fits(c, w),
            x == c ^ byte_in(w, refl, b),
    ;
    lemma_step8_decomp(w, refl, poly, x);
}

/// A non-reflected single bit below the top slides up to bit `w - 1`.
proof fn lemma_bit_slide_nrm(w: u64, poly: u64, j: u64)
    requires
        8 <= w <= 64,
        j <= w - 1,
    ensures
        stepn64(w, false, poly, 1u64 << j, (w - 1 - j) as u64) == 1u64 << ((w - 1) as u64),
    decreases w - j,
{
    if j < w - 1 {
        assert(step64(w, false, poly, 1u64 << j) == 1u64 << ((j + 1) as u64)) by (bit_vector)
            requires
                8 <= w <= 64,
                j < w - 1,
        ;
        lemma_stepn_peel(w, false, poly, 1u64 << j, (w - 1 - j) as u64);
        lemma_bit_slide_nrm(w, poly, (j + 1) as u64);
    }
}

/// What a non-reflected base-table seed entry holds: the table value of the
/// single-bit byte `1 << k` is the polynomial pushed through `k` steps.
pub proof fn lemma_seed_nrm(w: u64, poly: u64, k: u64)
    requires
        8 <= w <= 64,
        k <= 7,
    ensures
        table_val(w, false, poly, (1u64 << k) as u8) == stepn64(w, false, poly, poly, k),
{
    lemma_xor_zero();
    let v = (1u64 << k) as u8;
    let j = (w - 8 + k) as u64;
    assert(v as u64 == 1u64 << k && byte_in(w, false, v) == 1u64 << j && step64(
        w,
        false,
        poly,
        1u64 << ((w - 1) as u64),
    ) == poly) by (bit_vector)
        requires
            8 <= w <= 64,
            k <= 7,
            v == (1u64 << k) as u8,
            j == (w - 8 + k) as u64,
    ;
    assert(table_val(w, false, poly, v) == stepn64(w, false, poly, 1u64 << j, 8));
    lemma_stepn_add(w, false, poly, 1u64 << j, (7 - k) as u64, (k + 1) as u64);
    lemma_bit_slide_nrm(w, poly, j);
    assert(stepn64(w, false, poly, 1u64 << j, 8) == stepn64(
        w,
        false,
        poly,
        1u64 << ((w - 1) as u64),
        (k + 1) as u64,
    ));
    lemma_stepn_peel(w, false, poly, 1u64 << ((w - 1) as u64), (k + 1) as u64);
}

/// What the base lookup table of a variant must hold: for every byte value,
/// the CRC of that single byte starting from register zero.
pub open spec fn base_table_ok(w: u64, refl: bool, poly: u64, t: Seq<u64>) -> bool {
    &&& t.len() == 256
    &&& forall|v: u8| #[trigger] t[v as int] == table_val(w, refl, poly, v)
}

/// Build the 256-entry base table for the effective polynomial `poly` by the
/// doubling trick: seed the single-bit entries by chaining shift steps, then
/// combine them by XOR, using the linearity of the recurrence.
pub(crate) fn build_table64(w: u64, refl: bool, poly: u64) -> (t: Vec<u64>)
    requires
        8 <= w <= 64,
        fits(poly, w),
    ensures
        base_table_ok(w, refl, poly, t@),
{
    let mask = width_mask(w);
    let mut t: Vec<u64> = Vec::new();
    let mut z: usize = 0;
    while z < 256
        invariant
            t@.len() == z,
            z <= 256,
            forall|v: int| 0 <= v < z ==> t@[v] == 0,
        decreases 256 - z,
    {
        t.push(0);
        z = z + 1;
    }
    proof {
        lemma_stepn_zero(w, refl, poly, 8);
        lemma_xor_zero();
        lemma_byte_in_zero(w, refl);
        assert(table_val(w, refl, poly, 0) == 0);
        lemma_pow2_small();
    }
    if refl {
        let mut value = poly;
        t.set(128, value);
        let mut k: u64 = 7;
        while k > 0
            invariant
                8 <= w <= 64,
                fits(poly, w),
                t@.len() == 256,
                k <= 7,
                value == stepn64(w, true, poly, poly, (7 - k) as u64),
                t@[0] == 0,
                forall|p: u64| k <= p <= 7 ==> t@[(1u64 << p) as int] == stepn64(
                    w,
                    true,
                    poly,
                    poly,
                    (7 - p) as u64,
                ),
            decreases k,
        {
            value = (value >> 1) ^ (if value & 1 == 1 { poly } else { 0 });
            k = k - 1;
            proof {
                lemma_pow2_facts(k);
                lemma_pow2_ne(k, 7);
                assert(stepn64(w, true, poly, poly, (7 - k) as u64) == value);
            }
            let ghost t0 = t@;
            t.set((1u64 << k) as usize, value);
            proof {
                assert(t@ =~= t0.update((1u64 << k) as int, value));
                assert forall|p: u64| k <= p <= 7 implies t@[(1u64 << p) as int] == stepn64(
                    w,
                    true,
                    poly,
                    poly,
                    (7 - p) as u64,
                ) by {
                    if p > k {
                        lemma_pow2_facts(p);
                        lemma_pow2_ne(p, k);
                        assert(t@[(1u64 << p) as int] == t0[(1u64 << p) as int]);
                    }
                }
            }
        }
    } else {
        t.set(1, poly);
        let mut value = poly;
        let mut k: u64 = 1;
        while k <= 7
            invariant
                8 <= w <= 64,
                fits(poly, w),
                t@.len() == 256,
                1 <= k <= 8,
                mask == w_mask(w),
                value == stepn64(w, false, poly, poly, (k - 1) as u64),
                t@[0] == 0,
                forall|p: u64| 1 <= p < k ==> t@[(1u64 << p) as int] == stepn64(w, false, poly, poly, p),
                t@[1] == poly,
            decreases 8 - k,
        {
            value = ((value << 1) & mask) ^ (if (value >> (w - 1)) & 1 == 1 { poly } else { 0 });
            proof {
                lemma_pow2_facts(k);
                lemma_pow2_ne(k, 0);
                lemma_pow2_small();
                assert(stepn64(w, false, poly, poly, k) == value);
            }
            let ghost t0 = t@;
            t.set((1u64 << k) as usize, value);
            proof {
                assert(t@ =~= t0.update((1u64 << k) as int, value));
                assert forall|p: u64| 1 <= p <= k implies t@[(1u64 << p) as int] == stepn64(
                    w,
                    false,
                    poly,
                    poly,
                    p,
                ) by {
                    if p < k {
                        lemma_pow2_facts(p);
                        lemma_pow2_ne(p, k);
                        assert(t@[(1u64 << p) as int] == t0[(1u64 << p) as int]);
                    }
                }
            }
            k = k + 1;
        }
    }
    proof {
        assert forall|p: u64| p <= 7 implies t@[(1u64 << p) as int] == table_val(
            w,
            refl,
            poly,
            (1u64 << p) as u8,
        ) by {
            if refl {
                lemma_seed_ref(w, poly, p);
            } else {
                lemma_seed_nrm(w, poly, p);
            }
        }
        lemma_pow2_small();
        lemma_pow2_facts(0);
        lemma_pow2_facts(1);
        assert(forall|v: int| 0 <= v < 2 ==> t@[v] == table_val(w, refl, poly, v as u8));
    }
    let mut i: u64 = 2;
    let mut e: u64 = 1;
    while i < 256
        invariant
            8 <= w <= 64,
            fits(poly, w),
            t@.len() == 256,
            1 <= e <= 8,
            i == 1u64 << e,
            forall|v: int| 0 <= v < i ==> t@[v] == table_val(w, refl, poly, v as u8),
            forall|p: u64| e <= p <= 7 ==> t@[(1u64 << p) as int] == table_val(
                w,
                refl,
                poly,
                (1u64 << p) as u8,
            ),
        decreases 256 - i,
    {
        proof {
            lemma_pow2_small();
            if e == 8 {
                assert(false);
            }
            lemma_pow2_facts(e);
            lemma_pow2_ne(0, e);
        }
        let ti = t[i as usize];
        let mut j: u64 = 1;
        while j < i
            invariant
                8 <= w <= 64,
                fits(poly, w),
                t@.len() == 256,
                1 <= e <= 7,
                i == 1u64 << e,
                2 <= i <= 128,
                1 <= j <= i,
                ti == table_val(w, refl, poly, i as u8),
                forall|v: int| 0 <= v < i + j ==> t@[v] == table_val(w, refl, poly, v as u8),
                forall|p: u64| e <= p <= 7 ==> t@[(1u64 << p) as int] == table_val(
                    w,
                    refl,
                    poly,
                    (1u64 << p) as u8,
                ),
            decreases i - j,
        {
            let tj = t[j as usize];
            proof {
                lemma_byte_split(e, i, j);
                lemma_table_val_xor(w, refl, poly, i as u8, j as u8);
            }
            let ghost t0 = t@;
            t.set((i + j) as usize, ti ^ tj);
            proof {
                assert(t@ =~= t0.update((i + j) as int, ti ^ tj));
                assert forall|v: int| 0 <= v < i + j + 1 implies t@[v] == table_val(
                    w,
                    refl,
                    poly,
                    v as u8,
                ) by {
                    if v == i + j {
                        assert(t@[v] == table_val(w, refl, poly, (i + j) as u8));
                    } else {
                        assert(t@[v] == t0[v]);
                    }
                }
                assert forall|p: u64| e <= p <= 7 implies t@[(1u64 << p) as int] == table_val(
                    w,
                    refl,
                    poly,
                    (1u64 << p) as u8,
                ) by {
                    if p > e {
                        lemma_pow2_lt(e, p);
                        lemma_pow2_facts(p);
                        assert((1u64 << p) as int != i + j);
                    } else {
                        assert((1u64 << p) as int != i + j);
                    }
                    assert(t@[(1u64 << p) as int] == t0[(1u64 << p) as int]);
                }
            }
            j = j + 1;
        }
        i = i * 2;
        e = e + 1;
        proof {
            lemma_pow2_double(e);
        }
    }
    proof {
        assert forall|v: u8| #[trigger] t@[v as int] == table_val(w, refl, poly, v) by {
            assert(t@[v as int] == table_val(w, refl, poly, (v as int) as u8));
        }
    }
    t
}

/// Builders that fill themselves with the lookup tables of one variant.
pub trait CrcTableBuilder<R: Reflect, T: CrcWord> {
    /// `self` holds the tables that a variant with polynomial `poly` needs.
    spec fn spec_built(&self, poly: T) -> bool;

    /// Fill `self` with the tables for `polynomial`.
    fn build_table(&mut self, polynomial: &CrcPoly<R, T>)
        ensures
            final(self).spec_built(polynomial.spec_poly()),
    ;
}

impl<R: Reflect, T: CrcWord> CrcTableBuilder<R, T> for Vec<u64> {
    open spec fn spec_built(&self, poly: T) -> bool {
        base_table_ok(T::bits(), R::spec_reflect(), spec_eff_poly::<R, T>(poly), self@)
    }

    fn build_table(&mut self, polynomial: &CrcPoly<R, T>) {
        let w = T::bits_exec();
        let refl = R::reflect();
        proof {
            lemma_eff_poly_fits::<R, T>(polynomial.spec_poly());
            polynomial.spec_poly().lemma_as64_fits();
        }
        let p64 = polynomial.poly().to64();
        let eff = if refl {
            reverse_low_bits(p64, w)
        } else {
            p64
        };
        *self = build_table64(w, refl, eff);
    }
}

} // verus!
