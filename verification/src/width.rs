//! Width policy: the four register widths a CRC may use.
//!
//! Engines and parameter sets are generic over a register type `T: CrcWord`.
//! The policy maps every register value into the low `T::bits()` bits of a
//! `u64`, which is the domain of the model in [`crate::model`].

use vstd::prelude::*;
use crate::model::fits;

verus! {

/// A CRC register type: an unsigned integer of 8, 16, 32 or 64 bits, embedded
/// into the low bits of a `u64`.
pub trait CrcWord: Copy + Sized {
    /// Number of bits in this register type.
    spec fn bits() -> u64;

    /// The register value, zero-extended to 64 bits.
    spec fn as64(self) -> u64;

    /// The register value holding the low `Self::bits()` bits of `v`.
    spec fn of64(v: u64) -> Self;

    /// The width is one of 8, 16, 32 or 64.
    proof fn lemma_bits()
        ensures
            Self::bits() == 8 || Self::bits() == 16 || Self::bits() == 32 || Self::bits() == 64,
    ;

    /// Every register value fits its width.
    proof fn lemma_as64_fits(self)
        ensures
            fits(self.as64(), Self::bits()),
    ;

    /// Embedding is injective: `as64` undoes `of64` on fitting values.
    proof fn lemma_of64_as64(v: u64)
        requires
            fits(v, Self::bits()),
        ensures
            Self::of64(v).as64() == v,
    ;

    /// Embedding is injective: `of64` undoes `as64`.
    proof fn lemma_as64_of64(self)
        ensures
            Self::of64(self.as64()) == self,
    ;

    /// The width, as a run-time value.
    fn bits_exec() -> (r: u64)
        ensures
            r == Self::bits(),
    ;

    /// Zero-extend the register value to 64 bits.
    fn to64(self) -> (r: u64)
        ensures
            r == self.as64(),
    ;

    /// Narrow a fitting 64-bit value back to the register type.
    fn from64(v: u64) -> (r: Self)
        requires
            fits(v, Self::bits()),
        ensures
            r == Self::of64(v),
    ;
}

proof fn word_cast_facts()
    by (bit_vector)
    ensures
        forall|x: u8| #[trigger] fits(x as u64, 8),
        forall|v: u64| fits(v, 8) ==> #[trigger] ((v as u8) as u64) == v,
        forall|x: u8| #[trigger] ((x as u64) as u8) == x,
        forall|x: u16| #[trigger] fits(x as u64, 16),
        forall|v: u64| fits(v, 16) ==> #[trigger] ((v as u16) as u64) == v,
        forall|x: u16| #[trigger] ((x as u64) as u16) == x,
        forall|x: u32| #[trigger] fits(x as u64, 32),
        forall|v: u64| fits(v, 32) ==> #[trigger] ((v as u32) as u64) == v,
        forall|x: u32| #[trigger] ((x as u64) as u32) == x,
        forall|x: u64| #[trigger] fits(x, 64),
{
}

impl CrcWord for u8 {
    open spec fn bits() -> u64 {
        8
    }

    open spec fn as64(self) -> u64 {
        self as u64
    }

    open spec fn of64(v: u64) -> Self {
        v as u8
    }

    proof fn lemma_bits() {
    }

    proof fn lemma_as64_fits(self) {
        word_cast_facts();
    }

    proof fn lemma_of64_as64(v: u64) {
        word_cast_facts();
    }

    proof fn lemma_as64_of64(self) {
        word_cast_facts();
        assert((self as u64) as u8 == self);
    }

    fn bits_exec() -> u64 {
        8
    }

    fn to64(self) -> u64 {
        self as u64
    }

    fn from64(v: u64) -> u8 {
        v as u8
    }
}

impl CrcWord for u16 {
    open spec fn bits() -> u64 {
        16
    }

    open spec fn as64(self) -> u64 {
        self as u64
    }

    open spec fn of64(v: u64) -> Self {
        v as u16
    }

    proof fn lemma_bits() {
    }

    proof fn lemma_as64_fits(self) {
        word_cast_facts();
    }

    proof fn lemma_of64_as64(v: u64) {
        word_cast_facts();
    }

    proof fn lemma_as64_of64(self) {
        word_cast_facts();
        assert((self as u64) as u16 == self);
    }

    fn bits_exec() -> u64 {
        16
    }

    fn to64(self) -> u64 {
        self as u64
    }

    fn from64(v: u64) -> u16 {
        v as u16
    }
}

impl CrcWord for u32 {
    open spec fn bits() -> u64 {
        32
    }

    open spec fn as64(self) -> u64 {
        self as u64
    }

    open spec fn of64(v: u64) -> Self {
        v as u32
    }

    proof fn lemma_bits() {
    }

    proof fn lemma_as64_fits(self) {
        word_cast_facts();
    }

    proof fn lemma_of64_as64(v: u64) {
        word_cast_facts();
    }

    proof fn lemma_as64_of64(self) {
        word_cast_facts();
        assert((self as u64) as u32 == self);
    }

    fn bits_exec() -> u64 {
        32
    }

    fn to64(self) -> u64 {
        self as u64
    }

    fn from64(v: u64) -> u32 {
        v as u32
    }
}

impl CrcWord for u64 {
    open spec fn bits() -> u64 {
        64
    }

    open spec fn as64(self) -> u64 {
        self
    }

    open spec fn of64(v: u64) -> Self {
        v
    }

    proof fn lemma_bits() {
    }

    proof fn lemma_as64_fits(self) {
        word_cast_facts();
    }

    proof fn lemma_of64_as64(v: u64) {
    }

    proof fn lemma_as64_of64(self) {
    }

    fn bits_exec() -> u64 {
        64
    }

    fn to64(self) -> u64 {
        self
    }

    fn from64(v: u64) -> u64 {
        v
    }
}

} // verus!
