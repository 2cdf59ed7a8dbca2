//! Engine tests: published check values for every built-in variant and every
//! engine, table agreement with the bitwise oracle, streaming, and edges.

use crc_kit::hasher::table_builder::CrcTableBuilder;
use crc_kit::hasher::{Bitwise, CrcHasher, Slicex4, Table};
use crc_kit::polynomial::{
    crc_16, crc_16_xmodem, crc_32, crc_32_c, crc_32_mpeg_2, crc_32_q, crc_64, crc_64_xz, crc_8,
    crc_8_maxim, CrcPolynomial, No, Yes,
};

fn self_check_bitwise<R: crc_kit::polynomial::Reflect, T: crc_kit::width::CrcWord + PartialEq + std::fmt::Debug>(
    p: &crc_kit::polynomial::CrcPoly<R, T>,
) {
    let (bytes, check) = p.check();
    let h: Bitwise<R, T> = Bitwise::with(p);
    let mut crc = h.initial_value();
    crc = h.update_crc(crc, &bytes);
    crc = h.finalize_crc(crc);
    assert_eq!(crc, check);
}

fn self_check_table<R: crc_kit::polynomial::Reflect, T: crc_kit::width::CrcWord + PartialEq + std::fmt::Debug>(
    p: &crc_kit::polynomial::CrcPoly<R, T>,
) {
    let (bytes, check) = p.check();
    let h: Table<R, T> = Table::with(p);
    let mut crc = h.initial_value();
    crc = h.update_crc(crc, &bytes);
    crc = h.finalize_crc(crc);
    assert_eq!(crc, check);
}

fn self_check_slicex4<R: crc_kit::polynomial::Reflect, T: crc_kit::width::CrcWord + PartialEq + std::fmt::Debug>(
    p: &crc_kit::polynomial::CrcPoly<R, T>,
) {
    let (bytes, check) = p.check();
    let h: Slicex4<R, T> = Slicex4::with(p);
    let mut crc = h.initial_value();
    crc = h.update_crc(crc, &bytes);
    crc = h.finalize_crc(crc);
    assert_eq!(crc, check);
}

#[test]
fn bitwise_check_crc_8() {
    self_check_bitwise(&crc_8());
}

#[test]
fn bitwise_check_crc_8_maxim() {
    self_check_bitwise(&crc_8_maxim());
}

#[test]
fn bitwise_check_crc_16() {
    self_check_bitwise(&crc_16());
}

#[test]
fn bitwise_check_crc_16_xmodem() {
    self_check_bitwise(&crc_16_xmodem());
}

#[test]
fn bitwise_check_crc_32() {
    self_check_bitwise(&crc_32());
}

#[test]
fn bitwise_check_crc_32_c() {
    self_check_bitwise(&crc_32_c());
}

#[test]
fn bitwise_check_crc_32_mpeg_2() {
    self_check_bitwise(&crc_32_mpeg_2());
}

#[test]
fn bitwise_check_crc_32_q() {
    self_check_bitwise(&crc_32_q());
}

#[test]
fn bitwise_check_crc_64() {
    self_check_bitwise(&crc_64());
}

#[test]
fn bitwise_check_crc_64_xz() {
    self_check_bitwise(&crc_64_xz());
}

#[test]
fn table_check_crc_8() {
    self_check_table(&crc_8());
}

#[test]
fn table_check_crc_8_maxim() {
    self_check_table(&crc_8_maxim());
}

#[test]
fn table_check_crc_16() {
    self_check_table(&crc_16());
}

#[test]
fn table_check_crc_16_xmodem() {
    self_check_table(&crc_16_xmodem());
}

#[test]
fn table_check_crc_32() {
    self_check_table(&crc_32());
}

#[test]
fn table_check_crc_32_c() {
    self_check_table(&crc_32_c());
}

#[test]
fn table_check_crc_32_mpeg_2() {
    self_check_table(&crc_32_mpeg_2());
}

#[test]
fn table_check_crc_32_q() {
    self_check_table(&crc_32_q());
}

#[test]
fn table_check_crc_64() {
    self_check_table(&crc_64());
}

#[test]
fn table_check_crc_64_xz() {
    self_check_table(&crc_64_xz());
}

#[test]
fn slicex4_check_crc_8() {
    self_check_slicex4(&crc_8());
}

#[test]
fn slicex4_check_crc_8_maxim() {
    self_check_slicex4(&crc_8_maxim());
}

#[test]
fn slicex4_check_crc_16() {
    self_check_slicex4(&crc_16());
}

#[test]
fn slicex4_check_crc_16_xmodem() {
    self_check_slicex4(&crc_16_xmodem());
}

#[test]
fn slicex4_check_crc_32() {
    self_check_slicex4(&crc_32());
}

#[test]
fn slicex4_check_crc_32_c() {
    self_check_slicex4(&crc_32_c());
}

#[test]
fn slicex4_check_crc_32_mpeg_2() {
    self_check_slicex4(&crc_32_mpeg_2());
}

#[test]
fn slicex4_check_crc_32_q() {
    self_check_slicex4(&crc_32_q());
}

#[test]
fn slicex4_check_crc_64() {
    self_check_slicex4(&crc_64());
}

#[test]
fn slicex4_check_crc_64_xz() {
    self_check_slicex4(&crc_64_xz());
}

#[test]
fn exact_check_values() {
    let p32 = crc_32();
    let h: Bitwise<Yes, u32> = Bitwise::with(&p32);
    let (bytes, _) = p32.check();
    assert_eq!(h.finalize_crc(h.update_crc(h.initial_value(), &bytes)), 0xCBF43926u32);

    let p16 = crc_16_xmodem();
    let h16: Bitwise<No, u16> = Bitwise::with(&p16);
    let (bytes16, _) = p16.check();
    assert_eq!(h16.finalize_crc(h16.update_crc(h16.initial_value(), &bytes16)), 0x31C3u16);

    let p8 = crc_8();
    let h8: Bitwise<No, u8> = Bitwise::with(&p8);
    let (bytes8, _) = p8.check();
    assert_eq!(h8.finalize_crc(h8.update_crc(h8.initial_value(), &bytes8)), 0xF4u8);
}

#[test]
fn check_message_is_ascii_digits() {
    let (bytes, _) = crc_32().check();
    assert_eq!(bytes, b"123456789".to_vec());
}

#[test]
fn base_table_matches_bitwise_crc_32() {
    let p = crc_32();
    let h: Bitwise<Yes, u32> = Bitwise::with(&p);
    let mut table: Vec<u64> = Vec::new();
    CrcTableBuilder::<Yes, u32>::build_table(&mut table, &p);
    for i in 0..256usize {
        let b = [i as u8];
        assert_eq!(table[i], h.update_crc(0u32, &b) as u64);
    }
}

#[test]
fn base_table_matches_bitwise_crc_16_xmodem() {
    let p = crc_16_xmodem();
    let h: Bitwise<No, u16> = Bitwise::with(&p);
    let mut table: Vec<u64> = Vec::new();
    CrcTableBuilder::<No, u16>::build_table(&mut table, &p);
    for i in 0..256usize {
        let b = [i as u8];
        assert_eq!(table[i], h.update_crc(0u16, &b) as u64);
    }
}

#[test]
fn base_table_matches_bitwise_crc_8_maxim() {
    let p = crc_8_maxim();
    let h: Bitwise<Yes, u8> = Bitwise::with(&p);
    let mut table: Vec<u64> = Vec::new();
    CrcTableBuilder::<Yes, u8>::build_table(&mut table, &p);
    for i in 0..256usize {
        let b = [i as u8];
        assert_eq!(table[i], h.update_crc(0u8, &b) as u64);
    }
}

#[test]
fn base_table_matches_bitwise_crc_64() {
    let p = crc_64();
    let h: Bitwise<No, u64> = Bitwise::with(&p);
    let mut table: Vec<u64> = Vec::new();
    CrcTableBuilder::<No, u64>::build_table(&mut table, &p);
    for i in 0..256usize {
        let b = [i as u8];
        assert_eq!(table[i], h.update_crc(0u64, &b));
    }
}

#[test]
fn chained_tables_match_bitwise_crc_32() {
    let p = crc_32();
    let h: Bitwise<Yes, u32> = Bitwise::with(&p);
    let mut tables: Vec<Vec<u64>> = Vec::new();
    CrcTableBuilder::<Yes, u32>::build_table(&mut tables, &p);
    for k in 0..4usize {
        for v in 0..256usize {
            let mut buf = [0u8; 4];
            buf[4 - 1 - k] = v as u8;
            assert_eq!(tables[k][v], h.update_crc(0u32, &buf) as u64);
        }
    }
}

#[test]
fn chained_tables_match_bitwise_crc_64() {
    let p = crc_64();
    let h: Bitwise<No, u64> = Bitwise::with(&p);
    let mut tables: Vec<Vec<u64>> = Vec::new();
    CrcTableBuilder::<No, u64>::build_table(&mut tables, &p);
    for k in 0..4usize {
        for v in 0..256usize {
            let mut buf = [0u8; 4];
            buf[4 - 1 - k] = v as u8;
            assert_eq!(tables[k][v], h.update_crc(0u64, &buf));
        }
    }
}

#[test]
fn streaming_matches_one_shot() {
    let p = crc_32();
    let msg: Vec<u8> = (0u16..200).map(|i| (i * 7 + 3) as u8).collect();
    for split in [0usize, 1, 3, 4, 7, 100, 199, 200] {
        let (a, b) = msg.split_at(split);
        let bw: Bitwise<Yes, u32> = Bitwise::with(&p);
        let tb: Table<Yes, u32> = Table::with(&p);
        let s4: Slicex4<Yes, u32> = Slicex4::with(&p);
        let whole_bw = bw.update_crc(bw.initial_value(), &msg);
        assert_eq!(bw.update_crc(bw.update_crc(bw.initial_value(), a), b), whole_bw);
        assert_eq!(tb.update_crc(tb.update_crc(tb.initial_value(), a), b), whole_bw);
        assert_eq!(s4.update_crc(s4.update_crc(s4.initial_value(), a), b), whole_bw);
    }
}

#[test]
fn empty_input_is_identity() {
    let p = crc_64_xz();
    let bw: Bitwise<Yes, u64> = Bitwise::with(&p);
    let tb: Table<Yes, u64> = Table::with(&p);
    let s4: Slicex4<Yes, u64> = Slicex4::with(&p);
    let empty: [u8; 0] = [];
    for s in [0u64, 1, 0xDEADBEEF, u64::MAX] {
        assert_eq!(bw.update_crc(s, &empty), s);
        assert_eq!(tb.update_crc(s, &empty), s);
        assert_eq!(s4.update_crc(s, &empty), s);
    }
}

#[test]
fn slicex4_remainder_lengths_match_bitwise() {
    let p = crc_16();
    let bw: Bitwise<Yes, u16> = Bitwise::with(&p);
    let s4: Slicex4<Yes, u16> = Slicex4::with(&p);
    let msg: Vec<u8> = (0u16..16).map(|i| (i * 31 + 5) as u8).collect();
    for len in 0..=msg.len() {
        let part = &msg[..len];
        assert_eq!(s4.update_crc(s4.initial_value(), part), bw.update_crc(bw.initial_value(), part));
    }
}

#[test]
fn engines_agree_on_all_variants_sample() {
    let msg: Vec<u8> = (0u16..64).map(|i| (i * 13 + 1) as u8).collect();
    let p = crc_32_q();
    let bw: Bitwise<No, u32> = Bitwise::with(&p);
    let tb: Table<No, u32> = Table::with(&p);
    let s4: Slicex4<No, u32> = Slicex4::with(&p);
    let r = bw.update_crc(bw.initial_value(), &msg);
    assert_eq!(tb.update_crc(tb.initial_value(), &msg), r);
    assert_eq!(s4.update_crc(s4.initial_value(), &msg), r);

    let q = crc_64_xz();
    let bw64: Bitwise<Yes, u64> = Bitwise::with(&q);
    let tb64: Table<Yes, u64> = Table::with(&q);
    let s464: Slicex4<Yes, u64> = Slicex4::with(&q);
    let r64 = bw64.update_crc(bw64.initial_value(), &msg);
    assert_eq!(tb64.update_crc(tb64.initial_value(), &msg), r64);
    assert_eq!(s464.update_crc(s464.initial_value(), &msg), r64);
}

#[test]
fn finalize_applies_xor_out() {
    let p = crc_32();
    let h: Bitwise<Yes, u32> = Bitwise::with(&p);
    assert_eq!(h.finalize_crc(0u32), 0xFFFFFFFFu32);
    assert_eq!(h.initial_value(), 0xFFFFFFFFu32);
    let q = crc_8();
    let h8: Bitwise<No, u8> = Bitwise::with(&q);
    assert_eq!(h8.finalize_crc(0x5Au8), 0x5Au8);
    assert_eq!(h8.initial_value(), 0x00u8);
}
