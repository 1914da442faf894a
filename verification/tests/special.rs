//! Exact expected bit patterns for the documented corner cases: zero, ties,
//! the saturation values, NaN, and the single overflowing conversion.

use floatconv::soft;

#[test]
fn zero_converts_to_positive_zero() {
    assert_eq!(soft::u64_to_f64(0), 0x0000_0000_0000_0000);
    assert_eq!(soft::u32_to_f32(0), 0x0000_0000);
    assert_eq!(soft::u128_to_f64(0), 0);
    assert_eq!(soft::i64_to_f64(0), 0);
    assert_eq!(soft::i32_to_f32(0), 0);
}

#[test]
fn one_converts_exactly() {
    assert_eq!(soft::u64_to_f64(1), 0x3FF0_0000_0000_0000);
    assert_eq!(soft::u32_to_f32(1), 0x3F80_0000);
    assert_eq!(soft::i8_to_f64(-1), 0xBFF0_0000_0000_0000);
    assert_eq!(soft::i8_to_f32(-1), 0xBF80_0000);
}

#[test]
fn tie_above_mantissa_keeps_low_bit_even() {
    // a 54-bit value just above the mantissa range: 1 << 53 | 4
    let x: u64 = 0x0020_0000_0000_0004;
    let r = soft::u64_to_f64(x);
    assert_eq!(r, (x as f64).to_bits());
    assert_eq!(r & 1, 0);
    // true halfway cases land on the even neighbour in both directions
    let up: u64 = (1 << 54) + 6; // between 1<<54 + 4 and 1<<54 + 8, rounds to + 8
    let down: u64 = (1 << 54) + 2; // between 1<<54 and 1<<54 + 4, rounds to 1<<54
    assert_eq!(soft::u64_to_f64(up), (1023u64 + 54) << 52 | 2);
    assert_eq!(soft::u64_to_f64(down), (1023u64 + 54) << 52);
}

#[test]
fn u128_max_rounds_to_two_pow_128() {
    assert_eq!(soft::u128_to_f64(u128::MAX), 0x47F0_0000_0000_0000);
}

#[test]
fn u128_max_overflows_f32_to_infinity() {
    assert_eq!(soft::u128_to_f32(u128::MAX), 0x7F80_0000);
}

#[test]
fn u128_to_f32_overflow_boundary() {
    // the least input that rounds up to infinity
    let least: u128 = u128::MAX - (1u128 << 103) + 1;
    assert_eq!(soft::u128_to_f32(least), 0x7F80_0000);
    // one below still rounds down, to the largest finite binary32
    assert_eq!(soft::u128_to_f32(least - 1), 0x7F7F_FFFF);
    assert_eq!(f32::from_bits(0x7F7F_FFFF), f32::MAX);
}

#[test]
fn nan_truncates_to_zero() {
    let nans64: [u64; 4] = [
        0x7FF8_0000_0000_0000,
        0xFFF8_0000_0000_0000,
        0x7FF0_0000_0000_0001,
        0xFFFF_FFFF_FFFF_FFFF,
    ];
    for &n in &nans64 {
        assert_eq!(soft::f64_to_u32(n), 0);
        assert_eq!(soft::f64_to_u128(n), 0);
        assert_eq!(soft::f64_to_i64(n), 0);
    }
    let nans32: [u32; 4] = [0x7FC0_0000, 0xFFC0_0000, 0x7F80_0001, 0xFFFF_FFFF];
    for &n in &nans32 {
        assert_eq!(soft::f32_to_u8(n), 0);
        assert_eq!(soft::f32_to_i128(n), 0);
    }
}

#[test]
fn infinities_saturate() {
    let inf64: u64 = 0x7FF0_0000_0000_0000;
    let ninf64: u64 = 0xFFF0_0000_0000_0000;
    assert_eq!(soft::f64_to_u8(inf64), u8::MAX);
    assert_eq!(soft::f64_to_u64(inf64), u64::MAX);
    assert_eq!(soft::f64_to_u128(inf64), u128::MAX);
    assert_eq!(soft::f64_to_i16(inf64), i16::MAX);
    assert_eq!(soft::f64_to_i128(inf64), i128::MAX);
    assert_eq!(soft::f64_to_u8(ninf64), 0);
    assert_eq!(soft::f64_to_u128(ninf64), 0);
    assert_eq!(soft::f64_to_i16(ninf64), i16::MIN);
    assert_eq!(soft::f64_to_i128(ninf64), i128::MIN);
    let inf32: u32 = 0x7F80_0000;
    let ninf32: u32 = 0xFF80_0000;
    assert_eq!(soft::f32_to_u16(inf32), u16::MAX);
    assert_eq!(soft::f32_to_u128(inf32), u128::MAX);
    assert_eq!(soft::f32_to_i8(ninf32), i8::MIN);
    assert_eq!(soft::f32_to_i64(inf32), i64::MAX);
}

#[test]
fn out_of_range_magnitudes_saturate() {
    // -40000.0 is far below the i16 range
    assert_eq!(soft::f32_to_i16((-40000.0f32).to_bits()), -32768);
    assert_eq!(soft::f32_to_i16((40000.0f32).to_bits()), 32767);
    assert_eq!(soft::f32_to_u8((256.0f32).to_bits()), 255);
    assert_eq!(soft::f32_to_u8((255.0f32).to_bits()), 255);
    assert_eq!(soft::f64_to_i8((-129.0f64).to_bits()), -128);
    assert_eq!(soft::f64_to_i8((-128.0f64).to_bits()), -128);
    assert_eq!(soft::f64_to_i8((-127.0f64).to_bits()), -127);
    assert_eq!(soft::f64_to_u32((4294967296.0f64).to_bits()), u32::MAX);
    assert_eq!(soft::f64_to_u32((4294967295.0f64).to_bits()), u32::MAX);
}

#[test]
fn negative_inputs_truncate_to_zero_unsigned() {
    assert_eq!(soft::f32_to_u32((-0.5f32).to_bits()), 0);
    assert_eq!(soft::f32_to_u32((-12345.0f32).to_bits()), 0);
    assert_eq!(soft::f64_to_u64((-0.0f64).to_bits()), 0);
    assert_eq!(soft::f64_to_u64((-1.0f64).to_bits()), 0);
}

#[test]
fn truncation_drops_the_fraction() {
    assert_eq!(soft::f64_to_i32((2.75f64).to_bits()), 2);
    assert_eq!(soft::f64_to_i32((-2.75f64).to_bits()), -2);
    assert_eq!(soft::f32_to_i32((0.999f32).to_bits()), 0);
    assert_eq!(soft::f32_to_i32((-0.999f32).to_bits()), 0);
    assert_eq!(soft::f64_to_u16((65535.996f64).to_bits()), 65535);
}

#[test]
fn lossless_round_trip_within_mantissa() {
    for &x in &[1u32, 2, 3, 0xFF_FFFF, 0x80_0000, 12345] {
        let bits = soft::u32_to_f32(x);
        assert_eq!(soft::f32_to_u32(bits), x);
    }
    for &x in &[1u64, 0x1F_FFFF_FFFF_FFFF, 0x10_0000_0000_0000, 987654321] {
        let bits = soft::u64_to_f64(x);
        assert_eq!(soft::f64_to_u64(bits), x);
    }
}

#[test]
fn signed_negation_flips_only_the_sign_bit() {
    for &i in &[1i64, 3, 12345, 0x1F_FFFF_FFFF_FFFF, i64::MAX] {
        assert_eq!(soft::i64_to_f64(-i), soft::i64_to_f64(i) | 1 << 63);
        assert_eq!(soft::i64_to_f32(-i), soft::i64_to_f32(i) | 1 << 31);
    }
}
