//! Strided oracles against the platform casts: every conversion is compared
//! with `as`, whose saturating float-to-integer semantics match the library.

use floatconv::soft;

/// A stride that is odd and not a power of two, so the sample walks through
/// all low-bit patterns of the 32-bit space.
const STEP: u32 = 65537;

#[test]
fn sampled_u32_against_cast() {
    let mut i: u32 = 0;
    loop {
        assert_eq!(soft::u32_to_f32(i), (i as f32).to_bits(), "{} -> f32", i);
        assert_eq!(soft::u32_to_f64(i), (i as f64).to_bits(), "{} -> f64", i);
        let (next, wrapped) = i.overflowing_add(STEP);
        if wrapped {
            break;
        }
        i = next;
    }
}

#[test]
fn sampled_i32_against_cast() {
    let mut u: u32 = 0;
    loop {
        let i = u as i32;
        assert_eq!(soft::i32_to_f32(i), (i as f32).to_bits(), "{} -> f32", i);
        assert_eq!(soft::i32_to_f64(i), (i as f64).to_bits(), "{} -> f64", i);
        let (next, wrapped) = u.overflowing_add(STEP);
        if wrapped {
            break;
        }
        u = next;
    }
}

#[test]
fn sampled_f32_to_unsigned_against_cast() {
    let mut bits: u32 = 0;
    loop {
        let f = f32::from_bits(bits);
        assert_eq!(soft::f32_to_u8(bits), f as u8, "{:?} -> u8", f);
        assert_eq!(soft::f32_to_u16(bits), f as u16, "{:?} -> u16", f);
        assert_eq!(soft::f32_to_u32(bits), f as u32, "{:?} -> u32", f);
        assert_eq!(soft::f32_to_u64(bits), f as u64, "{:?} -> u64", f);
        assert_eq!(soft::f32_to_u128(bits), f as u128, "{:?} -> u128", f);
        let (next, wrapped) = bits.overflowing_add(STEP);
        if wrapped {
            break;
        }
        bits = next;
    }
}

#[test]
fn sampled_f32_to_signed_against_cast() {
    let mut bits: u32 = 0;
    loop {
        let f = f32::from_bits(bits);
        assert_eq!(soft::f32_to_i8(bits), f as i8, "{:?} -> i8", f);
        assert_eq!(soft::f32_to_i16(bits), f as i16, "{:?} -> i16", f);
        assert_eq!(soft::f32_to_i32(bits), f as i32, "{:?} -> i32", f);
        assert_eq!(soft::f32_to_i64(bits), f as i64, "{:?} -> i64", f);
        assert_eq!(soft::f32_to_i128(bits), f as i128, "{:?} -> i128", f);
        let (next, wrapped) = bits.overflowing_add(STEP);
        if wrapped {
            break;
        }
        bits = next;
    }
}

/// Bit patterns of binary64 values worth probing: every exponent, with
/// mantissas around the powers of two and with all mantissa bits set.
fn f64_probe_patterns() -> Vec<u64> {
    let mut v: Vec<u64> = Vec::new();
    for e in 0..=2047u64 {
        for m in [0u64, 1, 2, 0xF_FFFF_FFFF_FFFF, 0x8_0000_0000_0000, 0x42] {
            v.push(e << 52 | m);
            v.push(1 << 63 | e << 52 | m);
        }
    }
    v
}

#[test]
fn probed_f64_to_unsigned_against_cast() {
    for &bits in &f64_probe_patterns() {
        let f = f64::from_bits(bits);
        assert_eq!(soft::f64_to_u8(bits), f as u8, "{:?} -> u8", f);
        assert_eq!(soft::f64_to_u16(bits), f as u16, "{:?} -> u16", f);
        assert_eq!(soft::f64_to_u32(bits), f as u32, "{:?} -> u32", f);
        assert_eq!(soft::f64_to_u64(bits), f as u64, "{:?} -> u64", f);
        assert_eq!(soft::f64_to_u128(bits), f as u128, "{:?} -> u128", f);
    }
}

#[test]
fn probed_f64_to_signed_against_cast() {
    for &bits in &f64_probe_patterns() {
        let f = f64::from_bits(bits);
        assert_eq!(soft::f64_to_i8(bits), f as i8, "{:?} -> i8", f);
        assert_eq!(soft::f64_to_i16(bits), f as i16, "{:?} -> i16", f);
        assert_eq!(soft::f64_to_i32(bits), f as i32, "{:?} -> i32", f);
        assert_eq!(soft::f64_to_i64(bits), f as i64, "{:?} -> i64", f);
        assert_eq!(soft::f64_to_i128(bits), f as i128, "{:?} -> i128", f);
    }
}

#[test]
fn all_from_i8_and_i16() {
    for i in i8::MIN..=i8::MAX {
        assert_eq!(soft::i8_to_f32(i), (i as f32).to_bits(), "{} -> f32", i);
        assert_eq!(soft::i8_to_f64(i), (i as f64).to_bits(), "{} -> f64", i);
    }
    for i in i16::MIN..=i16::MAX {
        assert_eq!(soft::i16_to_f32(i), (i as f32).to_bits(), "{} -> f32", i);
        assert_eq!(soft::i16_to_f64(i), (i as f64).to_bits(), "{} -> f64", i);
    }
}

#[test]
fn sampled_wide_ints_against_cast() {
    // spread 64- and 128-bit inputs from a linear congruential walk
    let mut x: u64 = 0x243F_6A88_85A3_08D3;
    for _ in 0..20000 {
        x = x.wrapping_mul(6364136223846793005).wrapping_add(1442695040888963407);
        assert_eq!(soft::u64_to_f32(x), (x as f32).to_bits(), "{} -> f32", x);
        assert_eq!(soft::u64_to_f64(x), (x as f64).to_bits(), "{} -> f64", x);
        let i = x as i64;
        assert_eq!(soft::i64_to_f32(i), (i as f32).to_bits(), "{} -> f32", i);
        assert_eq!(soft::i64_to_f64(i), (i as f64).to_bits(), "{} -> f64", i);
        let w = (x as u128) << 64 | (x.rotate_left(17) as u128);
        assert_eq!(soft::u128_to_f32(w), (w as f32).to_bits(), "{} -> f32", w);
        assert_eq!(soft::u128_to_f64(w), (w as f64).to_bits(), "{} -> f64", w);
        let j = w as i128;
        assert_eq!(soft::i128_to_f32(j), (j as f32).to_bits(), "{} -> f32", j);
        assert_eq!(soft::i128_to_f64(j), (j as f64).to_bits(), "{} -> f64", j);
    }
}
