//! Representation tests: validated construction and exact round trips
//! between Normal, Reverse and Koopman form, for all four widths.

use crc_kit::polynomial_order::{CrcPolynomial, Koopman, Normal, Reverse};

#[test]
fn valid_normal_polynomial() {
    assert!(Normal::<u8>::with_polynomial(!0u8).is_some());
    assert!(Normal::<u16>::with_polynomial(!0u16).is_some());
    assert!(Normal::<u32>::with_polynomial(!0u32).is_some());
    assert!(Normal::<u64>::with_polynomial(!0u64).is_some());
}

#[test]
fn invalid_normal_polynomial() {
    assert!(Normal::<u8>::with_polynomial(0u8).is_none());
    assert!(Normal::<u16>::with_polynomial(0u16).is_none());
    assert!(Normal::<u32>::with_polynomial(0u32).is_none());
    assert!(Normal::<u64>::with_polynomial(0u64).is_none());
    // The defining bit of Normal form is the lowest bit.
    assert!(Normal::<u32>::with_polynomial(0x04C11DB6u32).is_none());
}

#[test]
fn valid_reverse_polynomial() {
    assert!(Reverse::<u8>::with_polynomial(!0u8).is_some());
    assert!(Reverse::<u16>::with_polynomial(!0u16).is_some());
    assert!(Reverse::<u32>::with_polynomial(!0u32).is_some());
    assert!(Reverse::<u64>::with_polynomial(!0u64).is_some());
}

#[test]
fn invalid_reverse_polynomial() {
    assert!(Reverse::<u8>::with_polynomial(0u8).is_none());
    assert!(Reverse::<u16>::with_polynomial(0u16).is_none());
    assert!(Reverse::<u32>::with_polynomial(0u32).is_none());
    assert!(Reverse::<u64>::with_polynomial(0u64).is_none());
    // The defining bit of Reverse form is the highest bit.
    assert!(Reverse::<u32>::with_polynomial(0x7FFFFFFFu32).is_none());
}

#[test]
fn valid_koopman_polynomial() {
    assert!(Koopman::<u8>::with_polynomial(!0u8).is_some());
    assert!(Koopman::<u16>::with_polynomial(!0u16).is_some());
    assert!(Koopman::<u32>::with_polynomial(!0u32).is_some());
    assert!(Koopman::<u64>::with_polynomial(!0u64).is_some());
}

#[test]
fn invalid_koopman_polynomial() {
    assert!(Koopman::<u8>::with_polynomial(0u8).is_none());
    assert!(Koopman::<u16>::with_polynomial(0u16).is_none());
    assert!(Koopman::<u32>::with_polynomial(0u32).is_none());
    assert!(Koopman::<u64>::with_polynomial(0u64).is_none());
    assert!(Koopman::<u8>::with_polynomial(0x7Fu8).is_none());
}

#[test]
fn normal_reverse_identity_u8() {
    let poly = Normal::<u8>::with_polynomial(0x07u8 | 1).unwrap();
    assert_eq!(poly.to_reverse().to_normal().get_polynomial(), poly.get_polynomial());
}

#[test]
fn normal_reverse_identity_u16() {
    let poly = Normal::<u16>::with_polynomial(0x8005u16).unwrap();
    assert_eq!(poly.to_reverse().to_normal().get_polynomial(), 0x8005u16);
}

#[test]
fn normal_reverse_identity_u32() {
    let poly = Normal::<u32>::with_polynomial(0x04C11DB7u32).unwrap();
    assert_eq!(poly.to_reverse().to_normal().get_polynomial(), 0x04C11DB7u32);
}

#[test]
fn normal_reverse_identity_u64() {
    let poly = Normal::<u64>::with_polynomial(0x42F0E1EBA9EA3693u64).unwrap();
    assert_eq!(poly.to_reverse().to_normal().get_polynomial(), 0x42F0E1EBA9EA3693u64);
}

#[test]
fn normal_koopman_identity_all_widths() {
    let p8 = Normal::<u8>::with_polynomial(0x07u8).unwrap();
    assert_eq!(p8.to_koopman().to_normal().get_polynomial(), 0x07u8);
    let p16 = Normal::<u16>::with_polynomial(0x8005u16).unwrap();
    assert_eq!(p16.to_koopman().to_normal().get_polynomial(), 0x8005u16);
    let p32 = Normal::<u32>::with_polynomial(0x04C11DB7u32).unwrap();
    assert_eq!(p32.to_koopman().to_normal().get_polynomial(), 0x04C11DB7u32);
    let p64 = Normal::<u64>::with_polynomial(0x42F0E1EBA9EA3693u64).unwrap();
    assert_eq!(p64.to_koopman().to_normal().get_polynomial(), 0x42F0E1EBA9EA3693u64);
}

#[test]
fn reverse_of_normal_reverses_bits() {
    // CRC-32's polynomial in Reverse form is the well-known 0xEDB88320.
    let poly = Normal::<u32>::with_polynomial(0x04C11DB7u32).unwrap();
    assert_eq!(poly.to_reverse().get_polynomial(), 0xEDB88320u32);
    // And for 8 bits: reversing 0x07 gives 0xE0.
    let p8 = Normal::<u8>::with_polynomial(0x07u8).unwrap();
    assert_eq!(p8.to_reverse().get_polynomial(), 0xE0u8);
}

#[test]
fn koopman_of_normal_shows_top_degree() {
    // CRC-32's polynomial in Koopman form is 0x82608EDB.
    let poly = Normal::<u32>::with_polynomial(0x04C11DB7u32).unwrap();
    assert_eq!(poly.to_koopman().get_polynomial(), 0x82608EDBu32);
}

#[test]
fn reverse_koopman_identity() {
    let poly = Reverse::<u32>::with_polynomial(0xEDB88320u32).unwrap();
    assert_eq!(poly.to_koopman().to_reverse().get_polynomial(), 0xEDB88320u32);
    let p8 = Reverse::<u8>::with_polynomial(0xE0u8).unwrap();
    assert_eq!(p8.to_koopman().to_reverse().get_polynomial(), 0xE0u8);
}

#[test]
fn koopman_reverse_identity() {
    let poly = Koopman::<u32>::with_polynomial(0x82608EDBu32).unwrap();
    assert_eq!(poly.to_reverse().to_koopman().get_polynomial(), 0x82608EDBu32);
    let p64 = Koopman::<u64>::with_polynomial(0xA17870F5D4F51B49u64).unwrap();
    assert_eq!(p64.to_reverse().to_koopman().get_polynomial(), 0xA17870F5D4F51B49u64);
}

#[test]
fn koopman_normal_identity() {
    let poly = Koopman::<u16>::with_polynomial(0x8810u16).unwrap();
    assert_eq!(poly.to_normal().to_koopman().get_polynomial(), 0x8810u16);
}

#[test]
fn get_polynomial_returns_wrapped_value() {
    assert_eq!(Normal::<u16>::with_polynomial(0x1021u16).unwrap().get_polynomial(), 0x1021u16);
    assert_eq!(Reverse::<u16>::with_polynomial(0x8408u16).unwrap().get_polynomial(), 0x8408u16);
    assert_eq!(Koopman::<u16>::with_polynomial(0x8810u16).unwrap().get_polynomial(), 0x8810u16);
}
