//! The mathematical model of CRC computation.
//!
//! Every engine in this crate is specified against one fold: `crc_fold` feeds
//! a byte sequence through the shift-register recurrence `step64`, eight shift
//! steps per byte.  The register is modelled as the low `w` bits of a `u64`,
//! where `w` is the register width (8, 16, 32 or 64) and `refl` selects the
//! reflected (least-significant-bit-first) or non-reflected
//! (most-significant-bit-first) variant.  For reflected variants the `poly`
//! argument is the bit-reversed polynomial constant; for non-reflected ones it
//! is the polynomial in normal form.

use vstd::prelude::*;

verus! {

/// Mask with the low `w` bits set.
pub open spec fn w_mask(w: u64) -> u64
    recommends
        1 <= w <= 64,
{
    ((((1u64 << ((w - 1) as u64)) - 1) as u64) << 1) | 1
}

/// `v` occupies only the low `w` bits.
pub open spec fn fits(v: u64, w: u64) -> bool {
    v & w_mask(w) == v
}

/// One shift step of the CRC register: shift one bit out and, if that bit was
/// set, fold the polynomial constant in.  Reflected variants shift right and
/// watch the low bit; non-reflected ones shift left and watch bit `w - 1`.
pub open spec fn step64(w: u64, refl: bool, poly: u64, c: u64) -> u64
    recommends
        8 <= w <= 64,
{
    if refl {
        (c >> 1) ^ (if c & 1 == 1 { poly } else { 0u64 })
    } else {
        ((c << 1) & w_mask(w)) ^ (if (c >> ((w - 1) as u64)) & 1 == 1 { poly } else { 0u64 })
    }
}

/// `n` shift steps in sequence.
pub open spec fn stepn64(w: u64, refl: bool, poly: u64, c: u64, n: u64) -> u64
    decreases n,
{
    if n == 0 {
        c
    } else {
        step64(w, refl, poly, stepn64(w, refl, poly, c, (n - 1) as u64))
    }
}

/// The register position at which an input byte is folded in: the low byte
/// for reflected variants, the top byte of the `w`-bit register otherwise.
pub open spec fn byte_in(w: u64, refl: bool, b: u8) -> u64
    recommends
        8 <= w <= 64,
{
    if refl {
        b as u64
    } else {
        (b as u64) << ((w - 8) as u64)
    }
}

/// Advance the running CRC by one input byte: fold the byte in, then run
/// eight shift steps.
pub open spec fn feed64(w: u64, refl: bool, poly: u64, c: u64, b: u8) -> u64
    recommends
        8 <= w <= 64,
{
    stepn64(w, refl, poly, c ^ byte_in(w, refl, b), 8)
}

/// Advance the running CRC over a whole byte sequence, front to back.
pub open spec fn crc_fold(w: u64, refl: bool, poly: u64, c: u64, bytes: Seq<u8>) -> u64
    recommends
        8 <= w <= 64,
    decreases bytes.len(),
{
    if bytes.len() == 0 {
        c
    } else {
        crc_fold(w, refl, poly, feed64(w, refl, poly, c, bytes[0]), bytes.subrange(1, bytes.len() as int))
    }
}

/// What one base-table entry must hold: the CRC of the single byte `v`
/// starting from register zero.
pub open spec fn table_val(w: u64, refl: bool, poly: u64, v: u8) -> u64
    recommends
        8 <= w <= 64,
{
    feed64(w, refl, poly, 0, v)
}

/// What one entry of the `k`-th chained slicing table must hold: byte `v`
/// folded in at register zero and pushed through `8 * (k + 1)` shift steps,
/// i.e. the CRC of `v` followed by `k` zero bytes.
pub open spec fn slice_val(w: u64, refl: bool, poly: u64, k: u64, v: u8) -> u64
    recommends
        8 <= w <= 64,
        k <= 15,
{
    stepn64(w, refl, poly, byte_in(w, refl, v), (8 * (k + 1)) as u64)
}

/// The bit-level facts about one shift step, proved once for all widths.
proof fn lemma_step_core(w: u64, refl: bool, poly: u64, x: u64, y: u64, b: u8)
    by (bit_vector)
    requires
        8 <= w <= 64,
    ensures
        fits(poly, w) && fits(x, w) ==> fits(step64(w, refl, poly, x), w),
        step64(w, refl, poly, x ^ y) == step64(w, refl, poly, x) ^ step64(w, refl, poly, y),
        step64(w, refl, poly, 0) == 0,
        fits(x, w) && fits(y, w) ==> fits(x ^ y, w),
        fits(x, w) ==> fits(x ^ byte_in(w, refl, b), w),
{
}

/// A shift step keeps the register inside its `w` low bits.
pub proof fn lemma_step_fits(w: u64, refl: bool, poly: u64, c: u64)
    requires
        8 <= w <= 64,
        fits(poly, w),
        fits(c, w),
    ensures
        fits(step64(w, refl, poly, c), w),
{
    lemma_step_core(w, refl, poly, c, 0, 0);
}

/// A shift step is linear over XOR of register values.
pub proof fn lemma_step_xor(w: u64, refl: bool, poly: u64, x: u64, y: u64)
    requires
        8 <= w <= 64,
    ensures
        step64(w, refl, poly, x ^ y) == step64(w, refl, poly, x) ^ step64(w, refl, poly, y),
{
    lemma_step_core(w, refl, poly, x, y, 0);
}

/// The byte of the register that leaves during eight shift steps and selects
/// the table entry: the low byte for reflected variants, the top byte of the
/// `w`-bit register otherwise.
pub open spec fn idx_byte(w: u64, refl: bool, c: u64) -> u8
    recommends
        8 <= w <= 64,
{
    if refl {
        (c & 0xFF) as u8
    } else {
        (c >> ((w - 8) as u64)) as u8
    }
}

/// The rest of the register after eight shift steps, before table folding.
pub open spec fn shift_out(w: u64, refl: bool, c: u64) -> u64
    recommends
        8 <= w <= 64,
{
    if refl {
        c >> 8
    } else {
        (c << 8) & w_mask(w)
    }
}

/// Compute `w_mask(w)` at run time.
pub fn width_mask(w: u64) -> (r: u64)
    requires
        1 <= w <= 64,
    ensures
        r == w_mask(w),
{
    proof {
        assert(1u64 << ((w - 1) as u64) >= 1) by (bit_vector)
            requires
                1 <= w <= 64,
        ;
    }
    (((1u64 << (w - 1)) - 1) << 1) | 1
}

/// XOR of two fitting values fits.
pub proof fn lemma_xor_fits(a: u64, b: u64, w: u64)
    requires
        8 <= w <= 64,
        fits(a, w),
        fits(b, w),
    ensures
        fits(a ^ b, w),
{
    lemma_step_core(w, true, 0, a, b, 0);
}

/// A shift step sends register zero to zero.
pub proof fn lemma_step_zero(w: u64, refl: bool, poly: u64)
    requires
        8 <= w <= 64,
    ensures
        step64(w, refl, poly, 0) == 0,
{
    lemma_step_core(w, refl, poly, 0, 0, 0);
}

/// `n` shift steps keep the register inside its `w` low bits.
pub proof fn lemma_stepn_fits(w: u64, refl: bool, poly: u64, c: u64, n: u64)
    requires
        8 <= w <= 64,
        fits(poly, w),
        fits(c, w),
    ensures
        fits(stepn64(w, refl, poly, c, n), w),
    decreases n,
{
    if n > 0 {
        lemma_stepn_fits(w, refl, poly, c, (n - 1) as u64);
        lemma_step_fits(w, refl, poly, stepn64(w, refl, poly, c, (n - 1) as u64));
    }
}

/// `n` shift steps are linear over XOR of register values.
pub proof fn lemma_stepn_xor(w: u64, refl: bool, poly: u64, x: u64, y: u64, n: u64)
    requires
        8 <= w <= 64,
    ensures
        stepn64(w, refl, poly, x ^ y, n) == stepn64(w, refl, poly, x, n) ^ stepn64(w, refl, poly, y, n),
    decreases n,
{
    if n > 0 {
        lemma_stepn_xor(w, refl, poly, x, y, (n - 1) as u64);
        lemma_step_xor(
            w,
            refl,
            poly,
            stepn64(w, refl, poly, x, (n - 1) as u64),
            stepn64(w, refl, poly, y, (n - 1) as u64),
        );
    }
}

/// `n` shift steps send register zero to zero.
pub proof fn lemma_stepn_zero(w: u64, refl: bool, poly: u64, n: u64)
    requires
        8 <= w <= 64,
    ensures
        stepn64(w, refl, poly, 0, n) == 0,
    decreases n,
{
    if n > 0 {
        lemma_stepn_zero(w, refl, poly, (n - 1) as u64);
        lemma_step_zero(w, refl, poly);
    }
}

/// Step counts compose: `m` steps followed by `n` steps are `m + n` steps.
pub proof fn lemma_stepn_add(w: u64, refl: bool, poly: u64, c: u64, m: u64, n: u64)
    requires
        8 <= w <= 64,
        m + n <= u64::MAX,
    ensures
        stepn64(w, refl, poly, c, (m + n) as u64) == stepn64(w, refl, poly, stepn64(w, refl, poly, c, m), n),
    decreases n,
{
    if n > 0 {
        lemma_stepn_add(w, refl, poly, c, m, (n - 1) as u64);
    }
}

/// Feeding a byte keeps the register inside its `w` low bits.
pub proof fn lemma_feed_fits(w: u64, refl: bool, poly: u64, c: u64, b: u8)
    requires
        8 <= w <= 64,
        fits(poly, w),
        fits(c, w),
    ensures
        fits(feed64(w, refl, poly, c, b), w),
{
    lemma_step_core(w, refl, poly, c, 0, b);
    lemma_stepn_fits(w, refl, poly, c ^ byte_in(w, refl, b), 8);
}

/// Folding a whole sequence keeps the register inside its `w` low bits.
pub proof fn lemma_fold_fits(w: u64, refl: bool, poly: u64, c: u64, bytes: Seq<u8>)
    requires
        8 <= w <= 64,
        fits(poly, w),
        fits(c, w),
    ensures
        fits(crc_fold(w, refl, poly, c, bytes), w),
    decreases bytes.len(),
{
    if bytes.len() > 0 {
        lemma_feed_fits(w, refl, poly, c, bytes[0]);
        lemma_fold_fits(
            w,
            refl,
            poly,
            feed64(w, refl, poly, c, bytes[0]),
            bytes.subrange(1, bytes.len() as int),
        );
    }
}

/// Appending one byte to the input extends the fold by one feed.
pub proof fn lemma_fold_push(w: u64, refl: bool, poly: u64, c: u64, s: Seq<u8>, b: u8)
    requires
        8 <= w <= 64,
    ensures
        crc_fold(w, refl, poly, c, s.push(b)) == feed64(w, refl, poly, crc_fold(w, refl, poly, c, s), b),
    decreases s.len(),
{
    let t = s.push(b);
    assert(t.len() == s.len() + 1);
    if s.len() == 0 {
        assert(t[0] == b);
        assert(t.subrange(1, t.len() as int) =~= Seq::<u8>::empty());
        assert(crc_fold(w, refl, poly, c, t)
            == crc_fold(w, refl, poly, feed64(w, refl, poly, c, b), t.subrange(1, t.len() as int)));
        assert(crc_fold(w, refl, poly, feed64(w, refl, poly, c, b), Seq::<u8>::empty())
            == feed64(w, refl, poly, c, b));
        assert(crc_fold(w, refl, poly, c, s) == c);
    } else {
        assert(t[0] == s[0]);
        assert(t.subrange(1, t.len() as int) =~= s.subrange(1, s.len() as int).push(b));
        lemma_fold_push(w, refl, poly, feed64(w, refl, poly, c, s[0]), s.subrange(1, s.len() as int), b);
        assert(crc_fold(w, refl, poly, c, t)
            == crc_fold(w, refl, poly, feed64(w, refl, poly, c, s[0]), t.subrange(1, t.len() as int)));
        assert(crc_fold(w, refl, poly, c, s)
            == crc_fold(w, refl, poly, feed64(w, refl, poly, c, s[0]), s.subrange(1, s.len() as int)));
    }
}

/// The streaming law: folding `a` then `b` equals folding `a + b` in one go.
pub proof fn lemma_fold_append(w: u64, refl: bool, poly: u64, c: u64, a: Seq<u8>, b: Seq<u8>)
    requires
        8 <= w <= 64,
    ensures
        crc_fold(w, refl, poly, c, a + b) == crc_fold(w, refl, poly, crc_fold(w, refl, poly, c, a), b),
    decreases a.len(),
{
    if a.len() == 0 {
        assert(a + b =~= b);
    } else {
        assert((a + b)[0] == a[0]);
        assert((a + b).subrange(1, (a + b).len() as int) =~= a.subrange(1, a.len() as int) + b);
        lemma_fold_append(w, refl, poly, feed64(w, refl, poly, c, a[0]), a.subrange(1, a.len() as int), b);
    }
}

} // verus!
