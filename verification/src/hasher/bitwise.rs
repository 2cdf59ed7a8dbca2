//! The bitwise reference engine: one register shift per input bit.
//!
//! This engine needs no table memory and serves as the ground truth the
//! table-driven engines are proved against.

use vstd::prelude::*;
use core::marker::PhantomData;
use crate::hasher::{lemma_eff_poly_fits, CrcHasher};
use crate::model::{byte_in, crc_fold, feed64, fits, lemma_feed_fits, lemma_fold_push, lemma_xor_fits, stepn64, w_mask, width_mask};
use crate::polynomial::{CrcPoly, CrcPolynomial, Reflect};
use crate::reversal::reverse_low_bits;
use crate::width::CrcWord;

verus! {

/// The byte-at-a-time, bit-at-a-time reference engine.
pub struct Bitwise<R, T> where R: Reflect {
    init_val: T,
    poly: T,
    xor_out: T,
    phantom: PhantomData<R>,
}

/// Advance `crc` over `bytes` in the `w`-bit model: eight shift steps per
/// byte, exactly as `crc_fold` describes.
pub(crate) fn bitwise_update64(w: u64, refl: bool, poly: u64, crc: u64, bytes: &[u8]) -> (r: u64)
    requires
        8 <= w <= 64,
        fits(poly, w),
        fits(crc, w),
    ensures
        r == crc_fold(w, refl, poly, crc, bytes@),
        fits(r, w),
{
    let mask = width_mask(w);
    let mut c = crc;
    let mut i: usize = 0;
    proof {
        assert(bytes@.subrange(0, 0) =~= Seq::<u8>::empty());
    }
    while i < bytes.len()
        invariant
            8 <= w <= 64,
            mask == w_mask(w),
            fits(poly, w),
            fits(c, w),
            i <= bytes.len(),
            c == crc_fold(w, refl, poly, crc, bytes@.subrange(0, i as int)),
        decreases bytes.len() - i,
    {
        let b = bytes[i];
        let mut x = if refl {
            c ^ (b as u64)
        } else {
            c ^ ((b as u64) << (w - 8))
        };
        let ghost x0 = x;
        proof {
            assert(x0 == c ^ byte_in(w, refl, b));
        }
        let mut k: u64 = 0;
        while k < 8
            invariant
                8 <= w <= 64,
                mask == w_mask(w),
                k <= 8,
                x == stepn64(w, refl, poly, x0, k),
            decreases 8 - k,
        {
            if refl {
                x = (x >> 1) ^ (if x & 1 == 1 { poly } else { 0 });
            } else {
                x = ((x << 1) & mask) ^ (if (x >> (w - 1)) & 1 == 1 { poly } else { 0 });
            }
            k = k + 1;
        }
        proof {
            assert(x == feed64(w, refl, poly, c, b));
            lemma_feed_fits(w, refl, poly, c, b);
            lemma_fold_push(w, refl, poly, crc, bytes@.subrange(0, i as int), b);
            assert(bytes@.subrange(0, i as int).push(b) =~= bytes@.subrange(0, i + 1 as int));
        }
        c = x;
        i = i + 1;
    }
    proof {
        assert(bytes@.subrange(0, bytes@.len() as int) =~= bytes@);
    }
    c
}

impl<R: Reflect, T: CrcWord> CrcHasher<R, T> for Bitwise<R, T> {
    closed spec fn spec_init_val(&self) -> T {
        self.init_val
    }

    closed spec fn spec_poly(&self) -> T {
        self.poly
    }

    closed spec fn spec_xor_out(&self) -> T {
        self.xor_out
    }

    open spec fn wf(&self) -> bool {
        true
    }

    fn with(polynomial: &CrcPoly<R, T>) -> Self {
        Bitwise {
            init_val: polynomial.init_val(),
            poly: polynomial.poly(),
            xor_out: polynomial.xor_out(),
            phantom: PhantomData,
        }
    }

    fn initial_value(&self) -> T {
        self.init_val
    }

    fn update_crc(&self, crc: T, bytes: &[u8]) -> T {
        let w = T::bits_exec();
        let refl = R::reflect();
        proof {
            lemma_eff_poly_fits::<R, T>(self.poly);
            crc.lemma_as64_fits();
            self.poly.lemma_as64_fits();
        }
        let p = self.poly.to64();
        let poly = if refl {
            reverse_low_bits(p, w)
        } else {
            p
        };
        let c = bitwise_update64(w, refl, poly, crc.to64(), bytes);
        T::from64(c)
    }

    fn finalize_crc(&self, crc: T) -> T {
        proof {
            crc.lemma_as64_fits();
            self.xor_out.lemma_as64_fits();
            T::lemma_bits();
            lemma_xor_fits(crc.as64(), self.xor_out.as64(), T::bits());
            T::lemma_of64_as64(crc.as64() ^ self.xor_out.as64());
        }
        T::from64(crc.to64() ^ self.xor_out.to64())
    }
}

} // verus!
