//! CRC polynomial parameter sets and the catalog of built-in variants.
//!
//! A [`CrcPoly`] bundles everything that defines one named CRC algorithm: the
//! initial register value, the polynomial constant in normal form, the final
//! XOR constant, the published check value, and — through its `R: Reflect`
//! type parameter — the bit order of the variant.

use vstd::prelude::*;
use core::marker::PhantomData;
use crate::model::lemma_xor_fits;
use crate::width::CrcWord;

verus! {

/// The trait that determines if a polynomial uses the reflected
/// (least-significant-bit-first) algorithm or not.
pub trait Reflect {
    /// Whether the reflected algorithm is selected.
    spec fn spec_reflect() -> bool;

    /// The selection, as a run-time value.
    fn reflect() -> (r: bool)
        ensures
            r == Self::spec_reflect(),
    ;
}

/// Marker for polynomials that are specified to use the reflected algorithm.
pub struct Yes;

/// Marker for polynomials that are specified to use the non-reflected algorithm.
pub struct No;

impl Reflect for Yes {
    open spec fn spec_reflect() -> bool {
        true
    }

    fn reflect() -> bool {
        true
    }
}

impl Reflect for No {
    open spec fn spec_reflect() -> bool {
        false
    }

    fn reflect() -> bool {
        false
    }
}

/// A struct that holds all the information needed to compute a CRC.
pub struct CrcPoly<R, T> where R: Reflect {
    init_val: T,
    poly: T,
    xor_out: T,
    check: T,
    phantom: PhantomData<R>,
}

/// The message over which every variant's published check value is computed:
/// the nine ASCII digits "123456789".
pub open spec fn check_bytes() -> Seq<u8> {
    seq![0x31u8, 0x32u8, 0x33u8, 0x34u8, 0x35u8, 0x36u8, 0x37u8, 0x38u8, 0x39u8]
}

/// The operations a CRC parameter set offers.
pub trait CrcPolynomial<T: CrcWord>: Sized {
    /// The initial value of a running CRC.
    spec fn spec_init_val(&self) -> T;

    /// The polynomial constant, in normal form.
    spec fn spec_poly(&self) -> T;

    /// The constant XORed into the register on finalization.
    spec fn spec_xor_out(&self) -> T;

    /// The published CRC of the check message.
    spec fn spec_check(&self) -> T;

    /// Bundle the four constants of one variant.
    fn with(init: T, poly: T, xor: T, check: T) -> (r: Self)
        ensures
            r.spec_init_val() == init,
            r.spec_poly() == poly,
            r.spec_xor_out() == xor,
            r.spec_check() == check,
    ;

    /// The initial value of a running CRC.
    fn init_val(&self) -> (r: T)
        ensures
            r == self.spec_init_val(),
    ;

    /// The polynomial constant, in normal form.
    fn poly(&self) -> (r: T)
        ensures
            r == self.spec_poly(),
    ;

    /// The constant XORed into the register on finalization.
    fn xor_out(&self) -> (r: T)
        ensures
            r == self.spec_xor_out(),
    ;

    /// Close a running CRC: XOR the finalization constant in.
    fn finalize_crc(&self, crc: T) -> (r: T)
        ensures
            r.as64() == crc.as64() ^ self.spec_xor_out().as64(),
    ;

    /// The check message together with this variant's published check value.
    fn check(&self) -> (r: (Vec<u8>, T))
        ensures
            r.0@ == check_bytes(),
            r.1 == self.spec_check(),
    ;
}

impl<R: Reflect, T: CrcWord> CrcPolynomial<T> for CrcPoly<R, T> {
    closed spec fn spec_init_val(&self) -> T {
        self.init_val
    }

    closed spec fn spec_poly(&self) -> T {
        self.poly
    }

    closed spec fn spec_xor_out(&self) -> T {
        self.xor_out
    }

    closed spec fn spec_check(&self) -> T {
        self.check
    }

    fn with(init: T, poly: T, xor: T, check: T) -> Self {
        CrcPoly { init_val: init, poly, xor_out: xor, check, phantom: PhantomData }
    }

    fn init_val(&self) -> T {
        self.init_val
    }

    fn poly(&self) -> T {
        self.poly
    }

    fn xor_out(&self) -> T {
        self.xor_out
    }

    fn finalize_crc(&self, crc: T) -> T {
        proof {
            crc.lemma_as64_fits();
            self.xor_out.lemma_as64_fits();
            T::lemma_bits();
            lemma_xor_fits(crc.as64(), self.xor_out.as64(), T::bits());
            T::lemma_of64_as64(crc.as64() ^ self.xor_out.as64());
        }
        T::from64(crc.to64() ^ self.xor_out.to64())
    }

    fn check(&self) -> (Vec<u8>, T) {
        let msg: Vec<u8> = vec![0x31u8, 0x32u8, 0x33u8, 0x34u8, 0x35u8, 0x36u8, 0x37u8, 0x38u8, 0x39u8];
        proof {
            assert(msg@ =~= check_bytes());
        }
        (msg, self.check)
    }
}

/// CRC-8: non-reflected, polynomial 0x07.
pub fn crc_8() -> (p: CrcPoly<No, u8>)
    ensures
        p.spec_init_val() == 0x00u8,
        p.spec_poly() == 0x07u8,
        p.spec_xor_out() == 0x00u8,
        p.spec_check() == 0xf4u8,
{
    CrcPolynomial::with(0x00, 0x07, 0x00, 0xf4)
}

/// CRC-8/MAXIM: reflected, polynomial 0x31.
pub fn crc_8_maxim() -> (p: CrcPoly<Yes, u8>)
    ensures
        p.spec_init_val() == 0x00u8,
        p.spec_poly() == 0x31u8,
        p.spec_xor_out() == 0x00u8,
        p.spec_check() == 0xa1u8,
{
    CrcPolynomial::with(0x00, 0x31, 0x00, 0xa1)
}

/// CRC-16/ARC: reflected, polynomial 0x8005.
pub fn crc_16() -> (p: CrcPoly<Yes, u16>)
    ensures
        p.spec_init_val() == 0u16,
        p.spec_poly() == 0x8005u16,
        p.spec_xor_out() == 0u16,
        p.spec_check() == 0xbb3du16,
{
    CrcPolynomial::with(0, 0x8005, 0, 0xbb3d)
}

/// CRC-16/XMODEM: non-reflected, polynomial 0x1021.
pub fn crc_16_xmodem() -> (p: CrcPoly<No, u16>)
    ensures
        p.spec_init_val() == 0u16,
        p.spec_poly() == 0x1021u16,
        p.spec_xor_out() == 0u16,
        p.spec_check() == 0x31c3u16,
{
    CrcPolynomial::with(0, 0x1021, 0, 0x31c3)
}

/// CRC-32: reflected, polynomial 0x04c11db7.
pub fn crc_32() -> (p: CrcPoly<Yes, u32>)
    ensures
        p.spec_init_val() == 0xffffffffu32,
        p.spec_poly() == 0x04c11db7u32,
        p.spec_xor_out() == 0xffffffffu32,
        p.spec_check() == 0xcbf43926u32,
{
    CrcPolynomial::with(0xffffffff, 0x04c11db7, 0xffffffff, 0xcbf43926)
}

/// CRC-32C (Castagnoli): reflected, polynomial 0x1edc6f41.
pub fn crc_32_c() -> (p: CrcPoly<Yes, u32>)
    ensures
        p.spec_init_val() == 0xffffffffu32,
        p.spec_poly() == 0x1edc6f41u32,
        p.spec_xor_out() == 0xffffffffu32,
        p.spec_check() == 0xe3069283u32,
{
    CrcPolynomial::with(0xffffffff, 0x1edc6f41, 0xffffffff, 0xe3069283)
}

/// CRC-32/MPEG-2: non-reflected, polynomial 0x04c11db7.
pub fn crc_32_mpeg_2() -> (p: CrcPoly<No, u32>)
    ensures
        p.spec_init_val() == 0xffffffffu32,
        p.spec_poly() == 0x04c11db7u32,
        p.spec_xor_out() == 0x00000000u32,
        p.spec_check() == 0x0376e6e7u32,
{
    CrcPolynomial::with(0xffffffff, 0x04c11db7, 0x00000000, 0x0376e6e7)
}

/// CRC-32Q: non-reflected, polynomial 0x814141ab.
pub fn crc_32_q() -> (p: CrcPoly<No, u32>)
    ensures
        p.spec_init_val() == 0x00000000u32,
        p.spec_poly() == 0x814141abu32,
        p.spec_xor_out() == 0x00000000u32,
        p.spec_check() == 0x3010bf7fu32,
{
    CrcPolynomial::with(0x00000000, 0x814141ab, 0x00000000, 0x3010bf7f)
}

/// CRC-64/ECMA-182: non-reflected, polynomial 0x42f0e1eba9ea3693.
pub fn crc_64() -> (p: CrcPoly<No, u64>)
    ensures
        p.spec_init_val() == 0u64,
        p.spec_poly() == 0x42f0e1eba9ea3693u64,
        p.spec_xor_out() == 0u64,
        p.spec_check() == 0x6c40df5f0b497347u64,
{
    CrcPolynomial::with(0, 0x42f0e1eba9ea3693, 0, 0x6c40df5f0b497347)
}

/// CRC-64/XZ: reflected, polynomial 0x42f0e1eba9ea3693.
pub fn crc_64_xz() -> (p: CrcPoly<Yes, u64>)
    ensures
        p.spec_init_val() == 0xffffffffffffffffu64,
        p.spec_poly() == 0x42f0e1eba9ea3693u64,
        p.spec_xor_out() == 0xffffffffffffffffu64,
        p.spec_check() == 0x995dc9bbdf1939fau64,
{
    CrcPolynomial::with(0xffffffffffffffff, 0x42f0e1eba9ea3693, 0xffffffffffffffff, 0x995dc9bbdf1939fa)
}

} // verus!
