//! The three in-memory representations of a CRC polynomial — Normal, Reverse
//! and Koopman form — with validated construction and exact conversions
//! between the forms by bit reversal and shift/mask.

use vstd::prelude::*;
use crate::model::{fits, w_mask, width_mask};
use crate::reversal::{lemma_rev_fits, lemma_rev_rev, rev_bits, reverse_low_bits};
use crate::width::CrcWord;

verus! {

/// Struct that holds a CRC polynomial in Most Significant Bit order.
///
/// The polynomial must contain the 0th degree (lowest bit must be set); the
/// highest degree of the polynomial is implied.
#[derive(Debug, Clone, Copy, PartialEq, Eq)]
pub struct Normal<T>(T);

/// Struct that holds a CRC polynomial in Least Significant Bit order.
///
/// The polynomial must contain the 0th degree (highest bit must be set); the
/// highest degree of the polynomial is implied.
#[derive(Debug, Clone, Copy, PartialEq, Eq)]
pub struct Reverse<T>(T);

/// Struct that holds a CRC polynomial in Most Significant Bit order showing
/// the highest degree but not the lowest.
///
/// The polynomial must contain the highest degree (highest bit must be set);
/// the 0th degree is implied.
#[derive(Debug, Clone, Copy, PartialEq, Eq)]
pub struct Koopman<T>(T);

/// A validated polynomial representation: construction rejects a value whose
/// defining bit is cleared.
pub trait CrcPolynomial<T: CrcWord>: Sized {
    /// The raw bits of the representation.
    spec fn spec_polynomial(&self) -> T;

    /// Whether `poly` has this representation's defining bit set.
    spec fn spec_valid(poly: T) -> bool;

    /// Wrap `poly`, or reject it if its defining bit is cleared.
    fn with_polynomial(poly: T) -> (r: Option<Self>)
        ensures
            r is Some <==> Self::spec_valid(poly),
            r is Some ==> r->0.spec_polynomial() == poly,
    ;

    /// The raw bits of the representation.
    fn get_polynomial(&self) -> (r: T)
        ensures
            r == self.spec_polynomial(),
    ;
}

/// The Normal-form bits of a Koopman-form value: shift the explicit top
/// degree out and set the implied 0th degree.
pub open spec fn koopman_to_normal64(v: u64, w: u64) -> u64
    recommends
        8 <= w <= 64,
{
    ((v << 1) & w_mask(w)) | 1
}

/// The Koopman-form bits of a Normal-form value: shift down and set the
/// explicit top degree.
pub open spec fn normal_to_koopman64(v: u64, w: u64) -> u64
    recommends
        8 <= w <= 64,
{
    (v >> 1) | (1u64 << ((w - 1) as u64))
}

/// Bit-level facts about the Koopman shift/mask conversions: both directions
/// stay inside the width, set their defining bit, and cancel on valid values.
proof fn lemma_koopman_facts(v: u64, w: u64)
    by (bit_vector)
    requires
        8 <= w <= 64,
        fits(v, w),
    ensures
        fits(normal_to_koopman64(v, w), w),
        fits(koopman_to_normal64(v, w), w),
        (normal_to_koopman64(v, w) >> ((w - 1) as u64)) & 1 == 1,
        koopman_to_normal64(v, w) & 1 == 1,
        v & 1 == 1 ==> koopman_to_normal64(normal_to_koopman64(v, w), w) == v,
        (v >> ((w - 1) as u64)) & 1 == 1 ==> normal_to_koopman64(koopman_to_normal64(v, w), w)
            == v,
{
}

/// The top bit of a reversed value is the low bit of the original.
proof fn lemma_rev_top_bit(v: u64, w: u64)
    requires
        8 <= w <= 64,
    ensures
        (rev_bits(v, w) >> ((w - 1) as u64)) & 1 == v & 1,
{
    let a = rev_bits(v >> 1, (w - 1) as u64);
    lemma_rev_fits(v >> 1, (w - 1) as u64);
    assert((v & 1 == 0 || v & 1 == 1) && ((a | ((v & 1) << ((w - 1) as u64))) >> ((w - 1) as u64))
        & 1 == v & 1) by (bit_vector)
        requires
            8 <= w <= 64,
            fits(a, (w - 1) as u64),
    ;
}

/// The low bit of a reversed value is the top bit of the original.
proof fn lemma_rev_low_bit(v: u64, w: u64)
    requires
        8 <= w <= 64,
        fits(v, w),
    ensures
        rev_bits(v, w) & 1 == (v >> ((w - 1) as u64)) & 1,
{
    lemma_rev_fits(v, w);
    lemma_rev_rev(v, w);
    lemma_rev_top_bit(rev_bits(v, w), w);
}

impl<T: CrcWord> CrcPolynomial<T> for Normal<T> {
    closed spec fn spec_polynomial(&self) -> T {
        self.0
    }

    open spec fn spec_valid(poly: T) -> bool {
        poly.as64() & 1 == 1
    }

    fn with_polynomial(poly: T) -> Option<Self> {
        proof {
            let p = poly.as64();
            assert(p & 1 == 0 || p & 1 == 1) by (bit_vector);
        }
        if poly.to64() & 1 == 0 {
            None
        } else {
            Some(Normal(poly))
        }
    }

    fn get_polynomial(&self) -> T {
        self.0
    }
}

impl<T: CrcWord> CrcPolynomial<T> for Reverse<T> {
    closed spec fn spec_polynomial(&self) -> T {
        self.0
    }

    open spec fn spec_valid(poly: T) -> bool {
        (poly.as64() >> ((T::bits() - 1) as u64)) & 1 == 1
    }

    fn with_polynomial(poly: T) -> Option<Self> {
        let w = T::bits_exec();
        proof {
            T::lemma_bits();
            let p = poly.as64();
            assert((p >> ((w - 1) as u64)) & 1 == 0 || (p >> ((w - 1) as u64)) & 1 == 1)
                by (bit_vector);
        }
        if (poly.to64() >> (w - 1)) & 1 == 0 {
            None
        } else {
            Some(Reverse(poly))
        }
    }

    fn get_polynomial(&self) -> T {
        self.0
    }
}

impl<T: CrcWord> CrcPolynomial<T> for Koopman<T> {
    closed spec fn spec_polynomial(&self) -> T {
        self.0
    }

    open spec fn spec_valid(poly: T) -> bool {
        (poly.as64() >> ((T::bits() - 1) as u64)) & 1 == 1
    }

    fn with_polynomial(poly: T) -> Option<Self> {
        let w = T::bits_exec();
        proof {
            T::lemma_bits();
            let p = poly.as64();
            assert((p >> ((w - 1) as u64)) & 1 == 0 || (p >> ((w - 1) as u64)) & 1 == 1)
                by (bit_vector);
        }
        if (poly.to64() >> (w - 1)) & 1 == 0 {
            None
        } else {
            Some(Koopman(poly))
        }
    }

    fn get_polynomial(&self) -> T {
        self.0
    }
}

impl<T: CrcWord> Normal<T> {
    /// Convert to Least Significant Bit order: reverse the bits.
    pub fn to_reverse(&self) -> (r: Reverse<T>)
        ensures
            r.spec_polynomial().as64() == rev_bits(self.spec_polynomial().as64(), T::bits()),
            Self::spec_valid(self.spec_polynomial()) ==> Reverse::<T>::spec_valid(
                r.spec_polynomial(),
            ),
    {
        let w = T::bits_exec();
        proof {
            T::lemma_bits();
            self.0.lemma_as64_fits();
            lemma_rev_fits(self.0.as64(), w);
            T::lemma_of64_as64(rev_bits(self.0.as64(), w));
            lemma_rev_top_bit(self.0.as64(), w);
        }
        Reverse(T::from64(reverse_low_bits(self.0.to64(), w)))
    }

    /// Convert to Koopman form: drop the implied 0th degree, show the top one.
    pub fn to_koopman(&self) -> (r: Koopman<T>)
        ensures
            r.spec_polynomial().as64() == normal_to_koopman64(
                self.spec_polynomial().as64(),
                T::bits(),
            ),
            Koopman::<T>::spec_valid(r.spec_polynomial()),
    {
        let w = T::bits_exec();
        proof {
            T::lemma_bits();
            self.0.lemma_as64_fits();
            lemma_koopman_facts(self.0.as64(), w);
            T::lemma_of64_as64(normal_to_koopman64(self.0.as64(), w));
        }
        Koopman(T::from64((self.0.to64() >> 1) | (1u64 << (w - 1))))
    }
}

impl<T: CrcWord> Reverse<T> {
    /// Convert to Koopman form: back to Most Significant Bit order, then
    /// drop the implied 0th degree and show the top one.
    pub fn to_koopman(&self) -> (r: Koopman<T>)
        ensures
            r.spec_polynomial().as64() == normal_to_koopman64(
                rev_bits(self.spec_polynomial().as64(), T::bits()),
                T::bits(),
            ),
            Koopman::<T>::spec_valid(r.spec_polynomial()),
    {
        self.to_normal().to_koopman()
    }

    /// Convert to Most Significant Bit order: reverse the bits back.
    pub fn to_normal(&self) -> (r: Normal<T>)
        ensures
            r.spec_polynomial().as64() == rev_bits(self.spec_polynomial().as64(), T::bits()),
            Self::spec_valid(self.spec_polynomial()) ==> Normal::<T>::spec_valid(
                r.spec_polynomial(),
            ),
    {
        let w = T::bits_exec();
        proof {
            T::lemma_bits();
            self.0.lemma_as64_fits();
            lemma_rev_fits(self.0.as64(), w);
            T::lemma_of64_as64(rev_bits(self.0.as64(), w));
            lemma_rev_low_bit(self.0.as64(), w);
        }
        Normal(T::from64(reverse_low_bits(self.0.to64(), w)))
    }
}

impl<T: CrcWord> Koopman<T> {
    /// Convert to Least Significant Bit order: to Normal form first, then
    /// reverse the bits.
    pub fn to_reverse(&self) -> (r: Reverse<T>)
        ensures
            r.spec_polynomial().as64() == rev_bits(
                koopman_to_normal64(self.spec_polynomial().as64(), T::bits()),
                T::bits(),
            ),
            Reverse::<T>::spec_valid(r.spec_polynomial()),
    {
        self.to_normal().to_reverse()
    }

    /// Convert to Normal form: show the implied 0th degree, drop the top one.
    pub fn to_normal(&self) -> (r: Normal<T>)
        ensures
            r.spec_polynomial().as64() == koopman_to_normal64(
                self.spec_polynomial().as64(),
                T::bits(),
            ),
            Normal::<T>::spec_valid(r.spec_polynomial()),
    {
        let w = T::bits_exec();
        proof {
            T::lemma_bits();
            self.0.lemma_as64_fits();
            lemma_koopman_facts(self.0.as64(), w);
            T::lemma_of64_as64(koopman_to_normal64(self.0.as64(), w));
        }
        let mask = width_mask(w);
        Normal(T::from64(((self.0.to64() << 1) & mask) | 1))
    }
}

/// Round trip through Reverse form: for every width, reversing twice
/// reproduces the original Normal-form value exactly.
pub proof fn lemma_normal_reverse_roundtrip<T: CrcWord>(v: T)
    ensures
        rev_bits(rev_bits(v.as64(), T::bits()), T::bits()) == v.as64(),
{
    T::lemma_bits();
    v.lemma_as64_fits();
    lemma_rev_rev(v.as64(), T::bits());
}

/// Round trip through Koopman form: for every width, a Normal-form value
/// with its defining bit set is reproduced exactly.
pub proof fn lemma_normal_koopman_roundtrip<T: CrcWord>(v: T)
    requires
        v.as64() & 1 == 1,
    ensures
        koopman_to_normal64(normal_to_koopman64(v.as64(), T::bits()), T::bits()) == v.as64(),
{
    T::lemma_bits();
    v.lemma_as64_fits();
    lemma_koopman_facts(v.as64(), T::bits());
}

} // verus!
