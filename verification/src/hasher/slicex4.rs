//! The slice-by-4 engine: four chained tables, four input bytes per step.
//!
//! Advancing the register by four bytes is the XOR-superposition of advancing
//! each byte independently through a pre-multiplied table — the linearity of
//! the shift-register recurrence over XOR, proved in [`lemma_slice4_step`].
//! The final zero to three bytes fall back to the single-table byte loop.

use vstd::prelude::*;
use core::marker::PhantomData;
use crate::hasher::{lemma_eff_poly_fits, spec_eff_poly, CrcHasher};
use crate::hasher::table_builder::{
    build_table64, lemma_byte_in_zero, lemma_feed_table, lemma_step8_decomp,
    lemma_table_val_fits, lemma_xor_zero, CrcTableBuilder,
};
use crate::model::{
    byte_in, crc_fold, feed64, fits, idx_byte, lemma_feed_fits, lemma_fold_append,
    lemma_fold_push, lemma_stepn_add, lemma_stepn_fits, lemma_stepn_xor, lemma_stepn_zero,
    lemma_xor_fits, shift_out, slice_val, stepn64, table_val, w_mask, width_mask,
};
use crate::polynomial::{CrcPoly, CrcPolynomial, Reflect};
use crate::width::CrcWord;

verus! {

/// What the four chained tables of a variant must hold: entry `v` of table
/// `k` is the CRC contribution of byte `v` pushed through `k` further bytes.
pub open spec fn slice_tables_ok(w: u64, refl: bool, poly: u64, ts: Seq<Vec<u64>>) -> bool {
    &&& ts.len() == 4
    &&& forall|k: int| 0 <= k < 4 ==> (#[trigger] ts[k]@.len()) == 256
    &&& forall|k: int, v: u8| 0 <= k < 4 ==> #[trigger] ts[k]@[v as int] == slice_val(
        w,
        refl,
        poly,
        k as u64,
        v,
    )
}

/// The first chained table is the base table.
pub proof fn lemma_slice0_is_base(w: u64, refl: bool, poly: u64, v: u8)
    requires
        8 <= w <= 64,
    ensures
        slice_val(w, refl, poly, 0, v) == table_val(w, refl, poly, v),
{
    lemma_xor_zero();
}

/// Eight more steps move an entry one chained table up.
pub proof fn lemma_slice_advance(w: u64, refl: bool, poly: u64, k: u64, v: u8)
    requires
        8 <= w <= 64,
        1 <= k <= 15,
    ensures
        slice_val(w, refl, poly, k, v) == stepn64(
            w,
            refl,
            poly,
            slice_val(w, refl, poly, (k - 1) as u64, v),
            8,
        ),
{
    lemma_stepn_add(w, refl, poly, byte_in(w, refl, v), (8 * k) as u64, 8);
}

/// Eight steps of a base-table value give the second chained table's value.
proof fn lemma_table_val_advance(w: u64, refl: bool, poly: u64, v: u8)
    requires
        8 <= w <= 64,
    ensures
        stepn64(w, refl, poly, table_val(w, refl, poly, v), 8) == slice_val(w, refl, poly, 1, v),
{
    lemma_slice0_is_base(w, refl, poly, v);
    lemma_slice_advance(w, refl, poly, 1, v);
}

/// A chained-table entry fits the register width.
pub proof fn lemma_slice_val_fits(w: u64, refl: bool, poly: u64, k: u64, v: u8)
    requires
        8 <= w <= 64,
        fits(poly, w),
        k <= 15,
    ensures
        fits(slice_val(w, refl, poly, k, v), w),
    decreases k,
{
    if k == 0 {
        lemma_slice0_is_base(w, refl, poly, v);
        lemma_table_val_fits(w, refl, poly, v);
    } else {
        lemma_slice_val_fits(w, refl, poly, (k - 1) as u64, v);
        lemma_slice_advance(w, refl, poly, k, v);
        lemma_stepn_fits(w, refl, poly, slice_val(w, refl, poly, (k - 1) as u64, v), 8);
    }
}

/// A sequence of `n` zero bytes.
pub open spec fn zero_bytes(n: nat) -> Seq<u8> {
    Seq::new(n, |i: int| 0u8)
}

/// Folding zero bytes runs the register through bare shift steps.
proof fn lemma_fold_zeros(w: u64, refl: bool, poly: u64, c: u64, n: nat)
    requires
        8 <= w <= 64,
        n <= 16,
    ensures
        crc_fold(w, refl, poly, c, zero_bytes(n)) == stepn64(w, refl, poly, c, (8 * n) as u64),
    decreases n,
{
    if n == 0 {
        assert(zero_bytes(0) =~= Seq::<u8>::empty());
    } else {
        assert(zero_bytes(n)[0] == 0u8);
        assert(zero_bytes(n).subrange(1, n as int) =~= zero_bytes((n - 1) as nat));
        lemma_byte_in_zero(w, refl);
        lemma_xor_zero();
        assert(feed64(w, refl, poly, c, 0) == stepn64(w, refl, poly, c, 8));
        lemma_fold_zeros(w, refl, poly, stepn64(w, refl, poly, c, 8), (n - 1) as nat);
        lemma_stepn_add(w, refl, poly, c, 8, (8 * (n - 1)) as u64);
    }
}

/// What a chained table means at the byte level: entry `v` of table `k` is
/// the bitwise CRC, from register zero, of a `kk`-byte zero buffer carrying
/// `v` at position `kk - 1 - k` — for any chain width `kk`, in particular
/// the four-, eight- and sixteen-wide chains.
pub proof fn lemma_slice_val_zero_buffer(w: u64, refl: bool, poly: u64, kk: u64, k: u64, v: u8)
    requires
        8 <= w <= 64,
        k < kk <= 16,
    ensures
        crc_fold(
            w,
            refl,
            poly,
            0,
            Seq::new(kk as nat, |i: int| if i == kk - 1 - k { v } else { 0u8 }),
        ) == slice_val(w, refl, poly, k, v),
{
    let buf = Seq::new(kk as nat, |i: int| if i == kk - 1 - k { v } else { 0u8 });
    let pre = (kk - 1 - k) as nat;
    let tail = seq![v] + zero_bytes(k as nat);
    assert(buf =~= zero_bytes(pre) + tail);
    lemma_fold_append(w, refl, poly, 0, zero_bytes(pre), tail);
    lemma_fold_zeros(w, refl, poly, 0, pre);
    lemma_stepn_zero(w, refl, poly, (8 * pre) as u64);
    assert(tail[0] == v);
    assert(tail.subrange(1, tail.len() as int) =~= zero_bytes(k as nat));
    lemma_xor_zero();
    lemma_fold_zeros(w, refl, poly, feed64(w, refl, poly, 0, v), k as nat);
    lemma_stepn_add(w, refl, poly, byte_in(w, refl, v), 8, (8 * k) as u64);
}

/// Shifting a byte out keeps the register inside its `w` low bits.
proof fn lemma_shift_out_fits(w: u64, refl: bool, c: u64)
    by (bit_vector)
    requires
        8 <= w <= 64,
        fits(c, w),
    ensures
        fits(shift_out(w, refl, c), w),
{
}

/// Advancing four bytes at once: the nested four-byte feed equals the
/// register shifted out four times, XORed with one entry from each chained
/// table, each selected by a departing register byte folded with the matching
/// input byte.
pub proof fn lemma_slice4_step(w: u64, refl: bool, poly: u64, c: u64, b0: u8, b1: u8, b2: u8, b3: u8)
    requires
        8 <= w <= 64,
        fits(poly, w),
        fits(c, w),
    ensures
        ({
            let i0 = idx_byte(w, refl, c) ^ b0;
            let c1 = shift_out(w, refl, c);
            let i1 = idx_byte(w, refl, c1) ^ b1;
            let c2 = shift_out(w, refl, c1);
            let i2 = idx_byte(w, refl, c2) ^ b2;
            let c3 = shift_out(w, refl, c2);
            let i3 = idx_byte(w, refl, c3) ^ b3;
            let c4 = shift_out(w, refl, c3);
            feed64(
                w,
                refl,
                poly,
                feed64(w, refl, poly, feed64(w, refl, poly, feed64(w, refl, poly, c, b0), b1), b2),
                b3,
            ) == (((c4 ^ slice_val(w, refl, poly, 3, i0)) ^ slice_val(w, refl, poly, 2, i1))
                ^ slice_val(w, refl, poly, 1, i2)) ^ slice_val(w, refl, poly, 0, i3)
        }),
{
    let i0 = idx_byte(w, refl, c) ^ b0;
    let c1 = shift_out(w, refl, c);
    let i1 = idx_byte(w, refl, c1) ^ b1;
    let c2 = shift_out(w, refl, c1);
    let i2 = idx_byte(w, refl, c2) ^ b2;
    let c3 = shift_out(w, refl, c2);
    let i3 = idx_byte(w, refl, c3) ^ b3;
    let c4 = shift_out(w, refl, c3);
    let t0 = table_val(w, refl, poly, i0);
    let t1 = table_val(w, refl, poly, i1);
    let t2 = table_val(w, refl, poly, i2);
    let s1_0 = slice_val(w, refl, poly, 1, i0);
    let s1_1 = slice_val(w, refl, poly, 1, i1);
    let s2_0 = slice_val(w, refl, poly, 2, i0);
    lemma_shift_out_fits(w, refl, c);
    lemma_shift_out_fits(w, refl, c1);
    lemma_shift_out_fits(w, refl, c2);

    // One byte: feed(c, b0) == c1 ^ t0.
    lemma_feed_table(w, refl, poly, c, b0);
    let f1 = feed64(w, refl, poly, c, b0);

    // Two bytes: split the table term off, advance it eight steps.
    assert(f1 ^ byte_in(w, refl, b1) == (c1 ^ byte_in(w, refl, b1)) ^ t0) by (bit_vector)
        requires
            f1 == c1 ^ t0,
    ;
    lemma_stepn_xor(w, refl, poly, c1 ^ byte_in(w, refl, b1), t0, 8);
    lemma_feed_table(w, refl, poly, c1, b1);
    lemma_table_val_advance(w, refl, poly, i0);
    let f2 = feed64(w, refl, poly, f1, b1);
    assert(f2 == (c2 ^ t1) ^ s1_0);

    // Three bytes.
    assert(f2 ^ byte_in(w, refl, b2) == ((c2 ^ byte_in(w, refl, b2)) ^ t1) ^ s1_0) by (bit_vector)
        requires
            f2 == (c2 ^ t1) ^ s1_0,
    ;
    lemma_stepn_xor(w, refl, poly, (c2 ^ byte_in(w, refl, b2)) ^ t1, s1_0, 8);
    lemma_stepn_xor(w, refl, poly, c2 ^ byte_in(w, refl, b2), t1, 8);
    lemma_feed_table(w, refl, poly, c2, b2);
    lemma_table_val_advance(w, refl, poly, i1);
    lemma_slice_advance(w, refl, poly, 2, i0);
    let f3 = feed64(w, refl, poly, f2, b2);
    assert(f3 == ((c3 ^ t2) ^ s1_1) ^ s2_0);

    // Four bytes.
    assert(f3 ^ byte_in(w, refl, b3) == (((c3 ^ byte_in(w, refl, b3)) ^ t2) ^ s1_1) ^ s2_0)
        by (bit_vector)
        requires
            f3 == ((c3 ^ t2) ^ s1_1) ^ s2_0,
    ;
    lemma_stepn_xor(w, refl, poly, ((c3 ^ byte_in(w, refl, b3)) ^ t2) ^ s1_1, s2_0, 8);
    lemma_stepn_xor(w, refl, poly, (c3 ^ byte_in(w, refl, b3)) ^ t2, s1_1, 8);
    lemma_stepn_xor(w, refl, poly, c3 ^ byte_in(w, refl, b3), t2, 8);
    lemma_feed_table(w, refl, poly, c3, b3);
    lemma_table_val_advance(w, refl, poly, i2);
    lemma_slice_advance(w, refl, poly, 2, i1);
    lemma_slice_advance(w, refl, poly, 3, i0);
    lemma_slice0_is_base(w, refl, poly, i3);
    let f4 = feed64(w, refl, poly, f3, b3);
    let t3v = table_val(w, refl, poly, i3);
    let s1_2 = slice_val(w, refl, poly, 1, i2);
    let s2_1 = slice_val(w, refl, poly, 2, i1);
    let s3_0 = slice_val(w, refl, poly, 3, i0);
    assert(f4 == (((c4 ^ t3v) ^ s1_2) ^ s2_1) ^ s3_0);
    assert((((c4 ^ t3v) ^ s1_2) ^ s2_1) ^ s3_0 == (((c4 ^ s3_0) ^ s2_1) ^ s1_2) ^ t3v)
        by (bit_vector);
}

/// Build the four chained tables: the base table first, then each further
/// table by pushing the previous one's entries through one more base-table
/// lookup — the standard slicing recurrence.
pub(crate) fn build_slice64(w: u64, refl: bool, poly: u64) -> (ts: Vec<Vec<u64>>)
    requires
        8 <= w <= 64,
        fits(poly, w),
    ensures
        slice_tables_ok(w, refl, poly, ts@),
{
    let mask = width_mask(w);
    let t0 = build_table64(w, refl, poly);
    let mut ts: Vec<Vec<u64>> = Vec::new();
    proof {
        assert forall|v: u8| #[trigger] t0@[v as int] == slice_val(w, refl, poly, 0, v) by {
            lemma_slice0_is_base(w, refl, poly, v);
        }
    }
    ts.push(t0);
    let mut k: usize = 1;
    while k < 4
        invariant
            8 <= w <= 64,
            mask == w_mask(w),
            fits(poly, w),
            1 <= k <= 4,
            ts@.len() == k,
            forall|q: int| 0 <= q < k ==> (#[trigger] ts@[q]@.len()) == 256,
            forall|q: int, v: u8| 0 <= q < k ==> #[trigger] ts@[q]@[v as int] == slice_val(
                w,
                refl,
                poly,
                q as u64,
                v,
            ),
        decreases 4 - k,
    {
        let mut tk: Vec<u64> = Vec::new();
        let mut v: usize = 0;
        while v < 256
            invariant
                8 <= w <= 64,
                mask == w_mask(w),
                fits(poly, w),
                1 <= k <= 3,
                ts@.len() == k,
                forall|q: int| 0 <= q < k ==> (#[trigger] ts@[q]@.len()) == 256,
                forall|q: int, u: u8| 0 <= q < k ==> #[trigger] ts@[q]@[u as int] == slice_val(
                    w,
                    refl,
                    poly,
                    q as u64,
                    u,
                ),
                v <= 256,
                tk@.len() == v,
                forall|u: int| 0 <= u < v ==> #[trigger] tk@[u] == slice_val(
                    w,
                    refl,
                    poly,
                    k as u64,
                    u as u8,
                ),
            decreases 256 - v,
        {
            let prev_e = ts[k - 1][v];
            proof {
                assert(ts@[k - 1]@[v as int] == slice_val(w, refl, poly, (k - 1) as u64, (
                v as int) as u8));
                lemma_slice_val_fits(w, refl, poly, (k - 1) as u64, v as u8);
                lemma_step8_decomp(w, refl, poly, prev_e);
                lemma_slice_advance(w, refl, poly, k as u64, v as u8);
                lemma_slice0_is_base(w, refl, poly, idx_byte(w, refl, prev_e));
                assert((prev_e & 0xFF) < 256 && (prev_e & 0xFF) as usize == (prev_e & 0xFF) && ((
                prev_e & 0xFF) as u8) as u64 == (prev_e & 0xFF) && (fits(prev_e, w) ==> (prev_e
                    >> ((w - 8) as u64)) < 256 && (prev_e >> ((w - 8) as u64)) as usize == (prev_e
                    >> ((w - 8) as u64)) && ((prev_e >> ((w - 8) as u64)) as u8) as u64 == (prev_e
                    >> ((w - 8) as u64)))) by (bit_vector)
                    requires
                        8 <= w <= 64,
                ;
            }
            let e = if refl {
                (prev_e >> 8) ^ ts[0][(prev_e & 0xFF) as usize]
            } else {
                ((prev_e << 8) & mask) ^ ts[0][(prev_e >> (w - 8)) as usize]
            };
            tk.push(e);
            v = v + 1;
        }
        ts.push(tk);
        k = k + 1;
    }
    ts
}

impl<R: Reflect, T: CrcWord> CrcTableBuilder<R, T> for Vec<Vec<u64>> {
    open spec fn spec_built(&self, poly: T) -> bool {
        slice_tables_ok(T::bits(), R::spec_reflect(), spec_eff_poly::<R, T>(poly), self@)
    }

    fn build_table(&mut self, polynomial: &CrcPoly<R, T>) {
        let w = T::bits_exec();
        let refl = R::reflect();
        proof {
            lemma_eff_poly_fits::<R, T>(polynomial.spec_poly());
            polynomial.spec_poly().lemma_as64_fits();
        }
        let p64 = polynomial.poly().to64();
        let eff = if refl {
            crate::reversal::reverse_low_bits(p64, w)
        } else {
            p64
        };
        *self = build_slice64(w, refl, eff);
    }
}

/// The slice-by-4 engine: four chained tables, four bytes per hot-loop step,
/// a single-table byte loop for the remainder.
pub struct Slicex4<R, T> where R: Reflect {
    init_val: T,
    poly: T,
    xor_out: T,
    table: Vec<Vec<u64>>,
    phantom: PhantomData<R>,
}

/// Advance `crc` over `bytes`: four bytes per step through the four chained
/// tables, then the remaining zero to three bytes one at a time.  Every read
/// stays inside the declared byte span.
pub(crate) fn slicex4_update64(
    w: u64,
    refl: bool,
    Ghost(poly): Ghost<u64>,
    tables: &Vec<Vec<u64>>,
    crc: u64,
    bytes: &[u8],
) -> (r: u64)
    requires
        8 <= w <= 64,
        fits(poly, w),
        fits(crc, w),
        slice_tables_ok(w, refl, poly, tables@),
    ensures
        r == crc_fold(w, refl, poly, crc, bytes@),
        fits(r, w),
{
    let mask = width_mask(w);
    let n = bytes.len();
    let mut c = crc;
    let mut i: usize = 0;
    proof {
        assert(bytes@.subrange(0, 0) =~= Seq::<u8>::empty());
    }
    while n - i >= 4
        invariant
            8 <= w <= 64,
            mask == w_mask(w),
            fits(poly, w),
            fits(c, w),
            n == bytes.len(),
            i <= n,
            slice_tables_ok(w, refl, poly, tables@),
            c == crc_fold(w, refl, poly, crc, bytes@.subrange(0, i as int)),
        decreases n - i,
    {
        let b0 = bytes[i];
        let b1 = bytes[i + 1];
        let b2 = bytes[i + 2];
        let b3 = bytes[i + 3];
        let i0 = (if refl {
            (c & 0xFF) as u8
        } else {
            (c >> (w - 8)) as u8
        }) ^ b0;
        let c1 = if refl {
            c >> 8
        } else {
            (c << 8) & mask
        };
        let i1 = (if refl {
            (c1 & 0xFF) as u8
        } else {
            (c1 >> (w - 8)) as u8
        }) ^ b1;
        let c2 = if refl {
            c1 >> 8
        } else {
            (c1 << 8) & mask
        };
        let i2 = (if refl {
            (c2 & 0xFF) as u8
        } else {
            (c2 >> (w - 8)) as u8
        }) ^ b2;
        let c3 = if refl {
            c2 >> 8
        } else {
            (c2 << 8) & mask
        };
        let i3 = (if refl {
            (c3 & 0xFF) as u8
        } else {
            (c3 >> (w - 8)) as u8
        }) ^ b3;
        let c4 = if refl {
            c3 >> 8
        } else {
            (c3 << 8) & mask
        };
        let e = (((c4 ^ tables[3][i0 as usize]) ^ tables[2][i1 as usize]) ^ tables[1][
            i2 as usize]) ^ tables[0][i3 as usize];
        proof {
            lemma_slice4_step(w, refl, poly, c, b0, b1, b2, b3);
            let s0 = bytes@.subrange(0, i as int);
            lemma_fold_push(w, refl, poly, crc, s0, b0);
            lemma_fold_push(w, refl, poly, crc, s0.push(b0), b1);
            lemma_fold_push(w, refl, poly, crc, s0.push(b0).push(b1), b2);
            lemma_fold_push(w, refl, poly, crc, s0.push(b0).push(b1).push(b2), b3);
            assert(s0.push(b0).push(b1).push(b2).push(b3) =~= bytes@.subrange(0, i + 4 as int));
            lemma_feed_fits(w, refl, poly, c, b0);
            let f1 = feed64(w, refl, poly, c, b0);
            lemma_feed_fits(w, refl, poly, f1, b1);
            let f2 = feed64(w, refl, poly, f1, b1);
            lemma_feed_fits(w, refl, poly, f2, b2);
            lemma_feed_fits(w, refl, poly, feed64(w, refl, poly, f2, b2), b3);
        }
        c = e;
        i = i + 4;
    }
    while i < n
        invariant
            8 <= w <= 64,
            mask == w_mask(w),
            fits(poly, w),
            fits(c, w),
            n == bytes.len(),
            i <= n,
            slice_tables_ok(w, refl, poly, tables@),
            c == crc_fold(w, refl, poly, crc, bytes@.subrange(0, i as int)),
        decreases n - i,
    {
        let b = bytes[i];
        let idx: u8 = (if refl {
            (c & 0xFF) as u8
        } else {
            (c >> (w - 8)) as u8
        }) ^ b;
        proof {
            assert(idx == idx_byte(w, refl, c) ^ b);
            lemma_feed_table(w, refl, poly, c, b);
            lemma_slice0_is_base(w, refl, poly, idx);
            lemma_feed_fits(w, refl, poly, c, b);
            lemma_fold_push(w, refl, poly, crc, bytes@.subrange(0, i as int), b);
            assert(bytes@.subrange(0, i as int).push(b) =~= bytes@.subrange(0, i + 1 as int));
        }
        let e = tables[0][idx as usize];
        c = if refl {
            (c >> 8) ^ e
        } else {
            ((c << 8) & mask) ^ e
        };
        i = i + 1;
    }
    proof {
        assert(bytes@.subrange(0, bytes@.len() as int) =~= bytes@);
    }
    c
}

impl<R: Reflect, T: CrcWord> CrcHasher<R, T> for Slicex4<R, T> {
    closed spec fn spec_init_val(&self) -> T {
        self.init_val
    }

    closed spec fn spec_poly(&self) -> T {
        self.poly
    }

    closed spec fn spec_xor_out(&self) -> T {
        self.xor_out
    }

    closed spec fn wf(&self) -> bool {
        slice_tables_ok(T::bits(), R::spec_reflect(), spec_eff_poly::<R, T>(self.poly), self.table@)
    }

    fn with(polynomial: &CrcPoly<R, T>) -> Self {
        let mut table: Vec<Vec<u64>> = Vec::new();
        table.build_table(polynomial);
        Slicex4 {
            init_val: polynomial.init_val(),
            poly: polynomial.poly(),
            xor_out: polynomial.xor_out(),
            table,
            phantom: PhantomData,
        }
    }

    fn initial_value(&self) -> T {
        self.init_val
    }

    fn update_crc(&self, crc: T, bytes: &[u8]) -> T {
        let w = T::bits_exec();
        let refl = R::reflect();
        proof {
            lemma_eff_poly_fits::<R, T>(self.poly);
            crc.lemma_as64_fits();
        }
        let c = slicex4_update64(
            w,
            refl,
            Ghost(spec_eff_poly::<R, T>(self.poly)),
            &self.table,
            crc.to64(),
            bytes,
        );
        T::from64(c)
    }

    fn finalize_crc(&self, crc: T) -> T {
        proof {
            crc.lemma_as64_fits();
            self.xor_out.lemma_as64_fits();
            T::lemma_bits();
            lemma_xor_fits(crc.as64(), self.xor_out.as64(), T::bits());
            T::lemma_of64_as64(crc.as64() ^ self.xor_out.as64());
        }
        T::from64(crc.to64() ^ self.xor_out.to64())
    }
}

} // verus!
