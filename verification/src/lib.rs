//! A configurable CRC library: polynomial parameter sets for 8/16/32/64-bit
//! registers in both bit orders, with three interchangeable engines (bitwise,
//! single-table, slice-by-4), all verified against one mathematical model.

pub mod model;
pub mod reversal;
pub mod width;
pub mod polynomial;
pub mod polynomial_order;
pub mod hasher;

use vstd::prelude::*;

verus! {

/// 8-bit CRC register.
pub type Crc8 = u8;

/// 16-bit CRC register.
pub type Crc16 = u16;

/// 32-bit CRC register.
pub type Crc32 = u32;

/// 64-bit CRC register.
pub type Crc64 = u64;

} // verus!
