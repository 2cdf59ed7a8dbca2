//! The single-table engine: one base-table lookup per input byte.

use vstd::prelude::*;
use core::marker::PhantomData;
use crate::hasher::{lemma_eff_poly_fits, spec_eff_poly, CrcHasher};
use crate::hasher::table_builder::{
    base_table_ok, lemma_feed_table, CrcTableBuilder,
};
use crate::model::{
    crc_fold, fits, idx_byte, lemma_feed_fits, lemma_fold_push, lemma_xor_fits, w_mask,
    width_mask,
};
use crate::polynomial::{CrcPoly, CrcPolynomial, Reflect};
use crate::width::CrcWord;

verus! {

/// The table-driven engine: a 256-entry base table, one lookup per byte.
pub struct Table<R, T> where R: Reflect {
    init_val: T,
    poly: T,
    xor_out: T,
    table: Vec<u64>,
    phantom: PhantomData<R>,
}

/// Advance `crc` over `bytes`, one base-table lookup per byte.
pub(crate) fn table_update64(
    w: u64,
    refl: bool,
    Ghost(poly): Ghost<u64>,
    table: &Vec<u64>,
    crc: u64,
    bytes: &[u8],
) -> (r: u64)
    requires
        8 <= w <= 64,
        fits(poly, w),
        fits(crc, w),
        base_table_ok(w, refl, poly, table@),
    ensures
        r == crc_fold(w, refl, poly, crc, bytes@),
        fits(r, w),
{
    let mask = width_mask(w);
    let mut c = crc;
    let mut i: usize = 0;
    proof {
        assert(bytes@.subrange(0, 0) =~= Seq::<u8>::empty());
    }
    while i < bytes.len()
        invariant
            8 <= w <= 64,
            mask == w_mask(w),
            fits(poly, w),
            fits(c, w),
            i <= bytes.len(),
            base_table_ok(w, refl, poly, table@),
            c == crc_fold(w, refl, poly, crc, bytes@.subrange(0, i as int)),
        decreases bytes.len() - i,
    {
        let b = bytes[i];
        let idx: u8 = if refl {
            ((c & 0xFF) as u8) ^ b
        } else {
            ((c >> (w - 8)) as u8) ^ b
        };
        proof {
            assert(idx == idx_byte(w, refl, c) ^ b);
            lemma_feed_table(w, refl, poly, c, b);
            lemma_feed_fits(w, refl, poly, c, b);
            lemma_fold_push(w, refl, poly, crc, bytes@.subrange(0, i as int), b);
            assert(bytes@.subrange(0, i as int).push(b) =~= bytes@.subrange(0, i + 1 as int));
        }
        let e = table[idx as usize];
        c = if refl {
            (c >> 8) ^ e
        } else {
            ((c << 8) & mask) ^ e
        };
        i = i + 1;
    }
    proof {
        assert(bytes@.subrange(0, bytes@.len() as int) =~= bytes@);
    }
    c
}

impl<R: Reflect, T: CrcWord> CrcHasher<R, T> for Table<R, T> {
    closed spec fn spec_init_val(&self) -> T {
        self.init_val
    }

    closed spec fn spec_poly(&self) -> T {
        self.poly
    }

    closed spec fn spec_xor_out(&self) -> T {
        self.xor_out
    }

    closed spec fn wf(&self) -> bool {
        base_table_ok(T::bits(), R::spec_reflect(), spec_eff_poly::<R, T>(self.poly), self.table@)
    }

    fn with(polynomial: &CrcPoly<R, T>) -> Self {
        let mut table: Vec<u64> = Vec::new();
        table.build_table(polynomial);
        Table {
            init_val: polynomial.init_val(),
            poly: polynomial.poly(),
            xor_out: polynomial.xor_out(),
            table,
            phantom: PhantomData,
        }
    }

    fn initial_value(&self) -> T {
        self.init_val
    }

    fn update_crc(&self, crc: T, bytes: &[u8]) -> T {
        let w = T::bits_exec();
        let refl = R::reflect();
        proof {
            lemma_eff_poly_fits::<R, T>(self.poly);
            crc.lemma_as64_fits();
        }
        let c = table_update64(
            w,
            refl,
            Ghost(spec_eff_poly::<R, T>(self.poly)),
            &self.table,
            crc.to64(),
            bytes,
        );
        T::from64(c)
    }

    fn finalize_crc(&self, crc: T) -> T {
        proof {
            crc.lemma_as64_fits();
            self.xor_out.lemma_as64_fits();
            T::lemma_bits();
            lemma_xor_fits(crc.as64(), self.xor_out.as64(), T::bits());
            T::lemma_of64_as64(crc.as64() ^ self.xor_out.as64());
        }
        T::from64(crc.to64() ^ self.xor_out.to64())
    }
}

} // verus!
