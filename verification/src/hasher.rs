//! The CRC engines and the interface they share.
//!
//! All three engines compute the same function, [`spec_crc_update`]: the fold
//! of the model in [`crate::model`] over the input bytes.  They differ only in
//! how much table memory they trade for speed.

pub mod bitwise;
pub mod table_builder;
pub mod table;
pub mod slicex4;

pub use self::bitwise::Bitwise;
pub use self::table::Table;
pub use self::slicex4::Slicex4;

use vstd::prelude::*;
use crate::model::{crc_fold, fits, lemma_fold_append, lemma_fold_fits};
use crate::polynomial::{CrcPoly, CrcPolynomial, Reflect};
use crate::reversal::{lemma_rev_fits, rev_bits};
use crate::width::CrcWord;

verus! {

/// The polynomial constant an engine folds into the register: the
/// bit-reversed polynomial for reflected variants, the raw one otherwise.
pub open spec fn spec_eff_poly<R: Reflect, T: CrcWord>(poly: T) -> u64 {
    if R::spec_reflect() {
        rev_bits(poly.as64(), T::bits())
    } else {
        poly.as64()
    }
}

/// The effective polynomial fits the register width.
pub proof fn lemma_eff_poly_fits<R: Reflect, T: CrcWord>(poly: T)
    ensures
        8 <= T::bits() <= 64,
        fits(spec_eff_poly::<R, T>(poly), T::bits()),
{
    T::lemma_bits();
    poly.lemma_as64_fits();
    if R::spec_reflect() {
        lemma_rev_fits(poly.as64(), T::bits());
    }
}

/// What `update_crc` returns, for every engine over a variant with
/// polynomial constant `poly`: the model fold of the input bytes through the
/// shift-register recurrence.
pub open spec fn spec_crc_update<R: Reflect, T: CrcWord>(poly: T, crc: T, bytes: Seq<u8>) -> T {
    T::of64(
        crc_fold(T::bits(), R::spec_reflect(), spec_eff_poly::<R, T>(poly), crc.as64(), bytes),
    )
}

/// The uniform operation surface of the three engines.
pub trait CrcHasher<R: Reflect, T: CrcWord>: Sized {
    /// The initial register value of the variant the engine was built for.
    spec fn spec_init_val(&self) -> T;

    /// The polynomial constant of the variant the engine was built for.
    spec fn spec_poly(&self) -> T;

    /// The finalization constant of the variant the engine was built for.
    spec fn spec_xor_out(&self) -> T;

    /// The engine's internal tables, if any, agree with its polynomial.
    spec fn wf(&self) -> bool;

    /// Build an engine for one variant.  Construction never fails.
    fn with(polynomial: &CrcPoly<R, T>) -> (h: Self)
        ensures
            h.wf(),
            h.spec_init_val() == polynomial.spec_init_val(),
            h.spec_poly() == polynomial.spec_poly(),
            h.spec_xor_out() == polynomial.spec_xor_out(),
    ;

    /// The variant's initial running CRC.
    fn initial_value(&self) -> (r: T)
        ensures
            r == self.spec_init_val(),
    ;

    /// Advance a running CRC over a span of input bytes.
    fn update_crc(&self, crc: T, bytes: &[u8]) -> (r: T)
        requires
            self.wf(),
        ensures
            r == spec_crc_update::<R, T>(self.spec_poly(), crc, bytes@),
    ;

    /// Close a running CRC: XOR the variant's finalization constant in.
    fn finalize_crc(&self, crc: T) -> (r: T)
        ensures
            r.as64() == crc.as64() ^ self.spec_xor_out().as64(),
    ;
}

/// The streaming law: updating with `a` and then with `b` gives the same
/// running CRC as updating once with `a + b`, for every variant and state.
pub proof fn lemma_update_chunks<R: Reflect, T: CrcWord>(poly: T, s: T, a: Seq<u8>, b: Seq<u8>)
    ensures
        spec_crc_update::<R, T>(poly, spec_crc_update::<R, T>(poly, s, a), b)
            == spec_crc_update::<R, T>(poly, s, a + b),
{
    let w = T::bits();
    let refl = R::spec_reflect();
    let eff = spec_eff_poly::<R, T>(poly);
    lemma_eff_poly_fits::<R, T>(poly);
    s.lemma_as64_fits();
    lemma_fold_fits(w, refl, eff, s.as64(), a);
    T::lemma_of64_as64(crc_fold(w, refl, eff, s.as64(), a));
    lemma_fold_append(w, refl, eff, s.as64(), a, b);
}

/// Updating with an empty byte span leaves the running CRC unchanged, for
/// every variant and state.
pub proof fn lemma_update_empty<R: Reflect, T: CrcWord>(poly: T, s: T)
    ensures
        spec_crc_update::<R, T>(poly, s, Seq::<u8>::empty()) == s,
{
    s.lemma_as64_of64();
}

} // verus!
