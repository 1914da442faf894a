//! Software implementations of all conversion functions.  No function here
//! touches a floating point register: every one takes or returns the bits of
//! the floating point value as `u32` or `u64` instead of `f32` or `f64`, so
//! they are available on targets without an FPU and in contexts that forbid
//! one.
//!
//! Each function's contract states the exact result in terms of the
//! arithmetic model in [`crate::model`].

use vstd::prelude::*;
use vstd::arithmetic::power2::{
    pow2, lemma_pow2_adds, lemma_pow2_pos, lemma_pow2_strictly_increases, lemma2_to64,
    lemma2_to64_rest,
};
use vstd::arithmetic::mul::{
    lemma_mul_basics, lemma_mul_inequality, lemma_mul_is_associative, lemma_mul_is_commutative,
    lemma_mul_is_distributive_add_other_way, lemma_mul_strict_inequality,
};
use vstd::bits::{
    lemma_u8_shr_is_div, lemma_u16_shr_is_div, lemma_u32_shl_is_mul, lemma_u32_shr_is_div,
    lemma_u64_shl_is_mul, lemma_u64_shr_is_div, lemma_u128_shr_is_div,
};
use vstd::arithmetic::div_mod::{
    lemma_div_is_ordered, lemma_div_multiples_vanish, lemma_mod_multiples_basic,
    lemma_multiply_divide_lt, lemma_small_mod,
};
use crate::model::{
    bit_len, f32_to_sint, f32_to_uint, f64_to_sint, f64_to_uint, i_to_f32_bits, i_to_f64_bits,
    rne_div, u_to_f32_bits, u_to_f64_bits,
};
use crate::lemmas::{
    lemma_abs_mask_u32, lemma_abs_mask_u64, lemma_bit_len_interval, lemma_clz_u16,
    lemma_clz_u32, lemma_clz_u64, lemma_div_pow2_chain,
    lemma_div_pow2_ordering, lemma_mul_div_pow2_balance, lemma_or_high_bit_u32,
    lemma_or_high_bit_u64, lemma_pack_f32_w8, lemma_pack_f32_w16, lemma_pack_f32_w32,
    lemma_pack_f32_w64, lemma_pack_f32_w128, lemma_pack_f64_w8, lemma_pack_f64_w16,
    lemma_pack_f64_w32, lemma_pack_f64_w64, lemma_pack_f64_w128, lemma_pow2_le,
    lemma_round_mask_u32, lemma_round_mask_u64, lemma_round_step_u32, lemma_round_step_u64,
    lemma_rne_scale, lemma_trunc_magnitude_bounds, lemma_u128_shl_is_mul,
    lemma_u_to_f32_bits_in_range, lemma_u_to_f64_bits_in_range,
};

verus! {

pub fn u8_to_f32(x: u8) -> (r: u32)
    ensures
        r == u_to_f32_bits(x as nat),
{
    u16_to_f32(x as u16)
}

pub fn u16_to_f32(x: u16) -> (r: u32)
    ensures
        r == u_to_f32_bits(x as nat),
{
    if x == 0 {
        return 0;
    }
    let n: u32 = x.leading_zeros();
    let ghost k: nat = (15 - n) as nat;
    proof {
        lemma_clz_u16(x);
        lemma_bit_len_interval(x as nat, k);
    }
    let m: u32 = (x as u32) << (8 + n);  // significant bits, hidden bit still in place
    let e: u32 = 141 - n;  // exponent plus 127, minus one
    proof {
        lemma2_to64();
        lemma_pow2_adds(k, (8 + n) as nat);
        assert((x as u32) * pow2((8 + n) as nat) < pow2(24)) by {
            lemma_pow2_adds((16 - n) as nat, (8 + n) as nat);
            lemma_mul_strict_inequality(
                x as int,
                pow2((16 - n) as nat) as int,
                pow2((8 + n) as nat) as int,
            );
        }
        lemma_u32_shl_is_mul(x as u32, (8 + n) as u32);
        lemma_u32_shl_is_mul(e, 23);
        assert(pow2(k) * pow2((8 + n) as nat) <= m) by {
            lemma_mul_inequality(
                pow2(k) as int,
                x as int,
                pow2((8 + n) as nat) as int,
            );
        }
        assert((141 - n) * pow2(23) + pow2(23) == (127 + k) * pow2(23)) by {
            lemma_mul_is_distributive_add_other_way(pow2(23) as int, (141 - n) as int, 1);
        }
    }
    (e << 23) + m  // bit 24 of m carries into e
}

pub fn u32_to_f32(x: u32) -> (r: u32)
    ensures
        r == u_to_f32_bits(x as nat),
{
    if x == 0 {
        return 0;
    }
    let n: u32 = x.leading_zeros();
    let ghost k: nat = (31 - n) as nat;
    proof {
        lemma_clz_u32(x);
        lemma_bit_len_interval(x as nat, k);
        lemma2_to64();
        assert((x as nat) * pow2(n as nat) < pow2(32)) by {
            lemma_pow2_adds((32 - n) as nat, n as nat);
            lemma_mul_strict_inequality(
                x as int,
                pow2((32 - n) as nat) as int,
                pow2(n as nat) as int,
            );
        }
        lemma_u32_shl_is_mul(x, n);
    }
    let y: u32 = x << n;  // normalised: the top bit is one
    proof {
        assert(pow2(31) <= y as nat) by {
            lemma_pow2_adds(k, n as nat);
            lemma_mul_inequality(pow2(k) as int, x as int, pow2(n as nat) as int);
        }
        lemma_u32_shr_is_div(y, 8);
        assert(pow2(23) <= (y as nat) / pow2(8)) by {
            lemma_pow2_adds(23, 8);
            lemma_div_is_ordered(pow2(31) as int, y as int, pow2(8) as int);
            lemma_div_multiples_vanish(pow2(23) as int, pow2(8) as int);
            lemma_mul_is_commutative(pow2(8) as int, pow2(23) as int);
        }
        assert((y as nat) / pow2(8) < pow2(24)) by {
            lemma_pow2_adds(24, 8);
            lemma_multiply_divide_lt(y as int, pow2(8) as int, pow2(24) as int);
            lemma_mul_is_commutative(pow2(8) as int, pow2(24) as int);
        }
    }
    let a: u32 = y >> 8;  // significant bits, with bit 24 still intact
    let b: u32 = y << 24;  // insignificant bits, only relevant for rounding
    proof {
        lemma_round_mask_u32(a, b);
        lemma_round_step_u32(a, b, (b - ((b >> 31) & !a)) as u32);
    }
    let m: u32 = a + ((b - ((b >> 31) & !a)) >> 31);  // add one when rounding up; ties to even
    let e: u32 = 157 - n;  // exponent plus 127, minus one
    proof {
        let ghost q: nat = (y as nat) / pow2(8);
        let ghost rem: nat = (y as nat) % pow2(8);
        assert(b == (y % 0x100) * 0x100_0000) by (bit_vector)
            requires
                b == y << 24u32,
        ;
        assert(rem == y % 0x100);
        let ghost sig: nat = if k <= 23 {
            (x as nat) * pow2((23 - k) as nat)
        } else {
            rne_div(x as nat, (k - 23) as nat)
        };
        if k <= 23 {
            // n >= 8: the shifted value keeps every bit of x, the conversion is exact
            assert(y as nat == ((x as nat) * pow2((n - 8) as nat)) * pow2(8)) by {
                lemma_pow2_adds((n - 8) as nat, 8);
                lemma_mul_is_associative(x as int, pow2((n - 8) as nat) as int, pow2(8) as int);
            }
            lemma_mod_multiples_basic(((x as nat) * pow2((n - 8) as nat)) as int, pow2(8) as int);
            assert(rem == 0);
            assert(m == a);
            assert(a == (x as nat) * pow2((n - 8) as nat)) by {
                lemma_mul_is_commutative(pow2(8) as int, ((x as nat) * pow2((n - 8) as nat)) as int);
                lemma_div_multiples_vanish(((x as nat) * pow2((n - 8) as nat)) as int, pow2(8) as int);
            }
            assert(m == sig);
        } else {
            // n < 8: round the low 8 - n bits of x away, to nearest, ties to even
            assert(m == rne_div(y as nat, 8));
            lemma_rne_scale(x as nat, (k - 23) as nat, n as nat);
            assert(m == sig);
        }
        assert(pow2(23) <= sig);
        lemma_u32_shl_is_mul(e, 23);
        assert((127 + k) * pow2(23) == e * pow2(23) + pow2(23)) by {
            lemma_mul_is_distributive_add_other_way(pow2(23) as int, e as int, 1);
        }
        assert(bit_len(x as nat) - 1 == k);
    }
    (e << 23) + m  // + not |, so the mantissa can overflow into the exponent
}

pub fn u64_to_f32(x: u64) -> (r: u32)
    ensures
        r == u_to_f32_bits(x as nat),
{
    if x == 0 {
        return 0;
    }
    let n: u32 = x.leading_zeros();
    let ghost k: nat = (63 - n) as nat;
    proof {
        lemma_clz_u64(x);
        lemma_bit_len_interval(x as nat, k);
        lemma2_to64();
        lemma2_to64_rest();
        assert((x as nat) * pow2(n as nat) < pow2(64)) by {
            lemma_pow2_adds((64 - n) as nat, n as nat);
            lemma_mul_strict_inequality(
                x as int,
                pow2((64 - n) as nat) as int,
                pow2(n as nat) as int,
            );
        }
        lemma_u64_shl_is_mul(x, n as u64);
    }
    let y: u64 = x << n;  // normalised: the top bit is one
    proof {
        assert(pow2(63) <= y as nat) by {
            lemma_pow2_adds(k, n as nat);
            lemma_mul_inequality(pow2(k) as int, x as int, pow2(n as nat) as int);
        }
        lemma_u64_shr_is_div(y, 40);
        assert(pow2(23) <= (y as nat) / pow2(40)) by {
            lemma_pow2_adds(23, 40);
            lemma_div_is_ordered(pow2(63) as int, y as int, pow2(40) as int);
            lemma_div_multiples_vanish(pow2(23) as int, pow2(40) as int);
            lemma_mul_is_commutative(pow2(40) as int, pow2(23) as int);
        }
        assert((y as nat) / pow2(40) < pow2(24)) by {
            lemma_pow2_adds(24, 40);
            lemma_multiply_divide_lt(y as int, pow2(40) as int, pow2(24) as int);
            lemma_mul_is_commutative(pow2(40) as int, pow2(24) as int);
        }
    }
    let a: u32 = (y >> 40) as u32;  // significant bits, with bit 24 still intact
    let b: u32 = ((y >> 8) | (y & 0xFFFF)) as u32;  // insignificant bits, for rounding only
    proof {
        lemma_round_mask_u32(a, b);
        lemma_round_step_u32(a, b, (b - ((b >> 31) & !a)) as u32);
    }
    let m: u32 = a + ((b - ((b >> 31) & !a)) >> 31);  // add one when rounding up; ties to even
    let e: u32 = 189 - n;  // exponent plus 127, minus one
    proof {
        let ghost q: nat = (y as nat) / pow2(40);
        let ghost rem: nat = (y as nat) % pow2(40);
        assert((b > 0x8000_0000u32 <==> y % 0x100_0000_0000u64 > 0x80_0000_0000u64) && (b
            == 0x8000_0000u32 <==> y % 0x100_0000_0000u64 == 0x80_0000_0000u64))
            by (bit_vector)
            requires
                b == ((y >> 8u64) | (y & 0xFFFFu64)) as u32,
        ;
        assert(rem == y % 0x100_0000_0000u64);
        let ghost sig: nat = if k <= 23 {
            (x as nat) * pow2((23 - k) as nat)
        } else {
            rne_div(x as nat, (k - 23) as nat)
        };
        if k <= 23 {
            // n >= 40: the shifted value keeps every bit of x, the conversion is exact
            assert(y as nat == ((x as nat) * pow2((n - 40) as nat)) * pow2(40)) by {
                lemma_pow2_adds((n - 40) as nat, 40);
                lemma_mul_is_associative(x as int, pow2((n - 40) as nat) as int, pow2(40) as int);
            }
            lemma_mod_multiples_basic(((x as nat) * pow2((n - 40) as nat)) as int, pow2(40) as int);
            assert(rem == 0);
            assert(m == a);
            assert(a == (x as nat) * pow2((n - 40) as nat)) by {
                lemma_mul_is_commutative(
                    pow2(40) as int,
                    ((x as nat) * pow2((n - 40) as nat)) as int,
                );
                lemma_div_multiples_vanish(
                    ((x as nat) * pow2((n - 40) as nat)) as int,
                    pow2(40) as int,
                );
            }
            assert(m == sig);
        } else {
            // n < 40: round the low 40 - n bits of x away, to nearest, ties to even
            assert(m == rne_div(y as nat, 40));
            lemma_rne_scale(x as nat, (k - 23) as nat, n as nat);
            assert(m == sig);
        }
        assert(pow2(23) <= sig);
        lemma_u32_shl_is_mul(e, 23);
        assert((127 + k) * pow2(23) == e * pow2(23) + pow2(23)) by {
            lemma_mul_is_distributive_add_other_way(pow2(23) as int, e as int, 1);
        }
        assert(bit_len(x as nat) - 1 == k);
    }
    (e << 23) + m  // + not |, so the mantissa can overflow into the exponent
}

/// Count of leading zero bits of a nonzero `u128`, from the counts of its
/// two halves.
fn leading_zeros_u128(x: u128) -> (n: u32)
    requires
        x != 0,
    ensures
        n <= 127,
        pow2((127 - n) as nat) <= x as nat,
        (x as nat) < pow2((128 - n) as nat),
{
    let hi: u64 = (x >> 64) as u64;
    proof {
        lemma2_to64();
        lemma2_to64_rest();
        assert(x as nat == (x >> 64u128) * 0x1_0000_0000_0000_0000 + (x
            & 0xFFFF_FFFF_FFFF_FFFFu128)) by (bit_vector);
        assert(hi == x >> 64u128) by (bit_vector)
            requires
                hi == (x >> 64u128) as u64,
        ;
        assert((x & 0xFFFF_FFFF_FFFF_FFFFu128) < 0x1_0000_0000_0000_0000u128) by (bit_vector);
        assert((x & 0xFFFF_FFFF_FFFF_FFFFu128) == x as u64) by (bit_vector);
    }
    if hi != 0 {
        let n: u32 = hi.leading_zeros();
        proof {
            lemma_clz_u64(hi);
            let ghost kh: nat = (63 - n) as nat;
            assert(pow2(kh) * pow2(64) <= (hi as nat) * pow2(64)) by {
                lemma_mul_inequality(pow2(kh) as int, hi as int, pow2(64) as int);
            }
            lemma_pow2_adds(kh, 64);
            let ghost hin: nat = (hi + 1) as nat;
            assert((x as nat) < hin * pow2(64)) by {
                lemma_mul_is_distributive_add_other_way(pow2(64) as int, hi as int, 1);
            }
            assert(hin * pow2(64) <= pow2((64 - n) as nat) * pow2(64)) by {
                lemma_mul_inequality(
                    hin as int,
                    pow2((64 - n) as nat) as int,
                    pow2(64) as int,
                );
            }
            lemma_pow2_adds((64 - n) as nat, 64);
        }
        n
    } else {
        let lo: u64 = x as u64;
        proof {
            assert(x as nat == lo as nat);
            lemma_clz_u64(lo);
        }
        64 + lo.leading_zeros()
    }
}

pub fn u128_to_f32(x: u128) -> (r: u32)
    ensures
        r == u_to_f32_bits(x as nat),
{
    if x == 0 {
        return 0;
    }
    let n: u32 = leading_zeros_u128(x);
    let ghost k: nat = (127 - n) as nat;
    proof {
        lemma_bit_len_interval(x as nat, k);
        lemma2_to64();
        lemma2_to64_rest();
        assert(pow2(64) * pow2(64) == pow2(128)) by {
            lemma_pow2_adds(64, 64);
        }
        lemma_pow2_pos(103);
        lemma_pow2_pos(104);
        assert((x as nat) < pow2((128 - n) as nat));
        assert((x as nat) * pow2(n as nat) < pow2(128)) by {
            lemma_pow2_adds((128 - n) as nat, n as nat);
            lemma_mul_strict_inequality(
                x as int,
                pow2((128 - n) as nat) as int,
                pow2(n as nat) as int,
            );
        }
        lemma_u128_shl_is_mul(x, n as u128);
    }
    let y: u128 = x << n;  // normalised: the top bit is one
    proof {
        assert(pow2(127) <= y as nat) by {
            lemma_pow2_adds(k, n as nat);
            lemma_mul_inequality(pow2(k) as int, x as int, pow2(n as nat) as int);
        }
        lemma_u128_shr_is_div(y, 104);
        assert(pow2(23) <= (y as nat) / pow2(104)) by {
            lemma_pow2_adds(23, 104);
            lemma_div_is_ordered(pow2(127) as int, y as int, pow2(104) as int);
            lemma_div_multiples_vanish(pow2(23) as int, pow2(104) as int);
            lemma_mul_is_commutative(pow2(104) as int, pow2(23) as int);
        }
        assert((y as nat) / pow2(104) < pow2(24)) by {
            lemma_pow2_adds(24, 104);
            lemma_multiply_divide_lt(y as int, pow2(104) as int, pow2(24) as int);
            lemma_mul_is_commutative(pow2(104) as int, pow2(24) as int);
        }
    }
    let a: u32 = (y >> 104) as u32;  // significant bits, with bit 24 still intact
    // insignificant bits: the guard and near-sticky bits, with everything
    // below bit 72 folded into bit zero
    let b: u32 = ((y >> 72) as u32) | (if (y << 32 >> 32) != 0 { 1u32 } else { 0u32 });
    proof {
        lemma_round_mask_u32(a, b);
        lemma_round_step_u32(a, b, (b - ((b >> 31) & !a)) as u32);
    }
    let m: u32 = a + ((b - ((b >> 31) & !a)) >> 31);  // add one when rounding up; ties to even
    let e: u32 = 253 - n;  // exponent plus 127, minus one
    proof {
        let ghost q: nat = (y as nat) / pow2(104);
        let ghost rem: nat = (y as nat) % pow2(104);
        assert((b > 0x8000_0000u32 <==> y % (1u128 << 104) > (1u128 << 103)) && (b
            == 0x8000_0000u32 <==> y % (1u128 << 104) == (1u128 << 103))) by (bit_vector)
            requires
                b == ((y >> 72u128) as u32) | (if (y << 32u128 >> 32u128) != 0 {
                    1u32
                } else {
                    0u32
                }),
        ;
        assert((1u128 << 104) == pow2(104) && (1u128 << 103) == pow2(103)) by {
            lemma_pow2_strictly_increases(103, 128);
            lemma_pow2_strictly_increases(104, 128);
            lemma_mul_basics(pow2(103) as int);
            lemma_mul_basics(pow2(104) as int);
            lemma_u128_shl_is_mul(1, 103);
            lemma_u128_shl_is_mul(1, 104);
        }
        assert(rem == y % (1u128 << 104));
        assert(pow2(104) == 2 * pow2(103)) by {
            lemma_pow2_adds(103, 1);
        }
        let ghost sig: nat = if k <= 23 {
            (x as nat) * pow2((23 - k) as nat)
        } else {
            rne_div(x as nat, (k - 23) as nat)
        };
        if k <= 23 {
            // n >= 104: the shifted value keeps every bit of x, the conversion is exact
            assert(y as nat == ((x as nat) * pow2((n - 104) as nat)) * pow2(104)) by {
                lemma_pow2_adds((n - 104) as nat, 104);
                lemma_mul_is_associative(x as int, pow2((n - 104) as nat) as int, pow2(104) as int);
            }
            lemma_mod_multiples_basic(
                ((x as nat) * pow2((n - 104) as nat)) as int,
                pow2(104) as int,
            );
            assert(rem == 0);
            assert(m == a);
            assert(a == (x as nat) * pow2((n - 104) as nat)) by {
                lemma_mul_is_commutative(
                    pow2(104) as int,
                    ((x as nat) * pow2((n - 104) as nat)) as int,
                );
                lemma_div_multiples_vanish(
                    ((x as nat) * pow2((n - 104) as nat)) as int,
                    pow2(104) as int,
                );
            }
            assert(m == sig);
        } else {
            // n < 104: round the low 104 - n bits of x away, to nearest, ties to even
            assert(m == rne_div(y as nat, 104));
            lemma_rne_scale(x as nat, (k - 23) as nat, n as nat);
            assert(m == sig);
        }
        assert(pow2(23) <= sig);
        lemma_u32_shl_is_mul(e, 23);
        assert((127 + k) * pow2(23) == e * pow2(23) + pow2(23)) by {
            lemma_mul_is_distributive_add_other_way(pow2(23) as int, e as int, 1);
        }
        assert(bit_len(x as nat) - 1 == k);
    }
    (e << 23) + m  // + not |; on overflow past the top exponent this is infinity
}

pub fn u128_to_f64(x: u128) -> (r: u64)
    ensures
        r == u_to_f64_bits(x as nat),
{
    if x == 0 {
        return 0;
    }
    let n: u32 = leading_zeros_u128(x);
    let ghost k: nat = (127 - n) as nat;
    proof {
        lemma_bit_len_interval(x as nat, k);
        lemma2_to64();
        lemma2_to64_rest();
        assert(pow2(64) * pow2(64) == pow2(128)) by {
            lemma_pow2_adds(64, 64);
        }
        lemma_pow2_pos(74);
        lemma_pow2_pos(75);
        assert((x as nat) < pow2((128 - n) as nat));
        assert((x as nat) * pow2(n as nat) < pow2(128)) by {
            lemma_pow2_adds((128 - n) as nat, n as nat);
            lemma_mul_strict_inequality(
                x as int,
                pow2((128 - n) as nat) as int,
                pow2(n as nat) as int,
            );
        }
        lemma_u128_shl_is_mul(x, n as u128);
    }
    let y: u128 = x << n;  // normalised: the top bit is one
    proof {
        assert(pow2(127) <= y as nat) by {
            lemma_pow2_adds(k, n as nat);
            lemma_mul_inequality(pow2(k) as int, x as int, pow2(n as nat) as int);
        }
        lemma_u128_shr_is_div(y, 75);
        assert(pow2(52) <= (y as nat) / pow2(75)) by {
            lemma_pow2_adds(52, 75);
            lemma_div_is_ordered(pow2(127) as int, y as int, pow2(75) as int);
            lemma_div_multiples_vanish(pow2(52) as int, pow2(75) as int);
            lemma_mul_is_commutative(pow2(75) as int, pow2(52) as int);
        }
        assert((y as nat) / pow2(75) < pow2(53)) by {
            lemma_pow2_adds(53, 75);
            lemma_multiply_divide_lt(y as int, pow2(75) as int, pow2(53) as int);
            lemma_mul_is_commutative(pow2(75) as int, pow2(53) as int);
        }
    }
    let a: u64 = (y >> 75) as u64;  // significant bits, with bit 53 still intact
    // insignificant bits: the guard and near-sticky bits, with everything
    // below bit 11 folded into the low word
    let b: u64 = ((y >> 11) | (y & 0xFFFF_FFFF)) as u64;
    proof {
        lemma_round_mask_u64(a, b);
        lemma_round_step_u64(a, b, (b - ((b >> 63) & !a)) as u64);
    }
    let m: u64 = a + ((b - ((b >> 63) & !a)) >> 63);  // add one when rounding up; ties to even
    let e: u64 = 1149 - n as u64;  // exponent plus 1023, minus one
    proof {
        let ghost q: nat = (y as nat) / pow2(75);
        let ghost rem: nat = (y as nat) % pow2(75);
        assert((b > 0x8000_0000_0000_0000u64 <==> y % (1u128 << 75) > (1u128 << 74)) && (b
            == 0x8000_0000_0000_0000u64 <==> y % (1u128 << 75) == (1u128 << 74)))
            by (bit_vector)
            requires
                b == ((y >> 11u128) | (y & 0xFFFF_FFFFu128)) as u64,
        ;
        assert((1u128 << 75) == pow2(75) && (1u128 << 74) == pow2(74)) by {
            lemma_pow2_strictly_increases(74, 128);
            lemma_pow2_strictly_increases(75, 128);
            lemma_mul_basics(pow2(74) as int);
            lemma_mul_basics(pow2(75) as int);
            lemma_u128_shl_is_mul(1, 74);
            lemma_u128_shl_is_mul(1, 75);
        }
        assert(rem == y % (1u128 << 75));
        assert(pow2(75) == 2 * pow2(74)) by {
            lemma_pow2_adds(74, 1);
        }
        let ghost sig: nat = if k <= 52 {
            (x as nat) * pow2((52 - k) as nat)
        } else {
            rne_div(x as nat, (k - 52) as nat)
        };
        if k <= 52 {
            // n >= 75: the shifted value keeps every bit of x, the conversion is exact
            assert(y as nat == ((x as nat) * pow2((n - 75) as nat)) * pow2(75)) by {
                lemma_pow2_adds((n - 75) as nat, 75);
                lemma_mul_is_associative(x as int, pow2((n - 75) as nat) as int, pow2(75) as int);
            }
            lemma_mod_multiples_basic(((x as nat) * pow2((n - 75) as nat)) as int, pow2(75) as int);
            assert(rem == 0);
            assert(m == a);
            assert(a == (x as nat) * pow2((n - 75) as nat)) by {
                lemma_mul_is_commutative(
                    pow2(75) as int,
                    ((x as nat) * pow2((n - 75) as nat)) as int,
                );
                lemma_div_multiples_vanish(
                    ((x as nat) * pow2((n - 75) as nat)) as int,
                    pow2(75) as int,
                );
            }
            assert(m == sig);
        } else {
            // n < 75: round the low 75 - n bits of x away, to nearest, ties to even
            assert(m == rne_div(y as nat, 75));
            lemma_rne_scale(x as nat, (k - 52) as nat, n as nat);
            assert(m == sig);
        }
        assert(pow2(52) <= sig);
        lemma_u64_shl_is_mul(e, 52);
        assert((1023 + k) * pow2(52) == e * pow2(52) + pow2(52)) by {
            lemma_mul_is_distributive_add_other_way(pow2(52) as int, e as int, 1);
        }
        assert(bit_len(x as nat) - 1 == k);
    }
    (e << 52) + m  // + not |, so the mantissa can overflow into the exponent
}

pub fn u8_to_f64(x: u8) -> (r: u64)
    ensures
        r == u_to_f64_bits(x as nat),
{
    u32_to_f64(x as u32)
}

pub fn u16_to_f64(x: u16) -> (r: u64)
    ensures
        r == u_to_f64_bits(x as nat),
{
    u32_to_f64(x as u32)
}

pub fn u32_to_f64(x: u32) -> (r: u64)
    ensures
        r == u_to_f64_bits(x as nat),
{
    if x == 0 {
        return 0;
    }
    let n: u32 = x.leading_zeros();
    let ghost k: nat = (31 - n) as nat;
    proof {
        lemma_clz_u32(x);
        lemma_bit_len_interval(x as nat, k);
        lemma2_to64();
        lemma2_to64_rest();
        assert((x as nat) * pow2((21 + n) as nat) < pow2(53)) by {
            lemma_pow2_adds((32 - n) as nat, (21 + n) as nat);
            lemma_mul_strict_inequality(
                x as int,
                pow2((32 - n) as nat) as int,
                pow2((21 + n) as nat) as int,
            );
        }
        lemma_u64_shl_is_mul(x as u64, (21 + n) as u64);
    }
    let m: u64 = (x as u64) << (21 + n);  // significant bits, with bit 53 still intact
    let e: u64 = 1053 - n as u64;  // exponent plus 1023, minus one
    proof {
        assert(pow2(52) <= m as nat) by {
            lemma_pow2_adds(k, (21 + n) as nat);
            lemma_mul_inequality(pow2(k) as int, x as int, pow2((21 + n) as nat) as int);
        }
        lemma_u64_shl_is_mul(e, 52);
        assert((1023 + k) * pow2(52) == e * pow2(52) + pow2(52)) by {
            lemma_mul_is_distributive_add_other_way(pow2(52) as int, e as int, 1);
        }
        assert(bit_len(x as nat) - 1 == k);
    }
    (e << 52) + m  // bit 53 of m carries into e
}

pub fn u64_to_f64(x: u64) -> (r: u64)
    ensures
        r == u_to_f64_bits(x as nat),
{
    if x == 0 {
        return 0;
    }
    let n: u32 = x.leading_zeros();
    let ghost k: nat = (63 - n) as nat;
    proof {
        lemma_clz_u64(x);
        lemma_bit_len_interval(x as nat, k);
        lemma2_to64();
        lemma2_to64_rest();
        assert((x as nat) * pow2(n as nat) < pow2(64)) by {
            lemma_pow2_adds((64 - n) as nat, n as nat);
            lemma_mul_strict_inequality(
                x as int,
                pow2((64 - n) as nat) as int,
                pow2(n as nat) as int,
            );
        }
        lemma_u64_shl_is_mul(x, n as u64);
    }
    let y: u64 = x << n;  // normalised: the top bit is one
    proof {
        assert(pow2(63) <= y as nat) by {
            lemma_pow2_adds(k, n as nat);
            lemma_mul_inequality(pow2(k) as int, x as int, pow2(n as nat) as int);
        }
        lemma_u64_shr_is_div(y, 11);
        assert(pow2(52) <= (y as nat) / pow2(11)) by {
            lemma_pow2_adds(52, 11);
            lemma_div_is_ordered(pow2(63) as int, y as int, pow2(11) as int);
            lemma_div_multiples_vanish(pow2(52) as int, pow2(11) as int);
            lemma_mul_is_commutative(pow2(11) as int, pow2(52) as int);
        }
        assert((y as nat) / pow2(11) < pow2(53)) by {
            lemma_pow2_adds(53, 11);
            lemma_multiply_divide_lt(y as int, pow2(11) as int, pow2(53) as int);
            lemma_mul_is_commutative(pow2(11) as int, pow2(53) as int);
        }
    }
    let a: u64 = y >> 11;  // significant bits, with bit 53 still intact
    let b: u64 = y << 53;  // insignificant bits, only relevant for rounding
    proof {
        lemma_round_mask_u64(a, b);
        lemma_round_step_u64(a, b, (b - ((b >> 63) & !a)) as u64);
    }
    let m: u64 = a + ((b - ((b >> 63) & !a)) >> 63);  // add one when rounding up; ties to even
    let e: u64 = 1085 - n as u64;  // exponent plus 1023, minus one
    proof {
        let ghost q: nat = (y as nat) / pow2(11);
        let ghost rem: nat = (y as nat) % pow2(11);
        assert(b == (y % 0x800) * 0x20_0000_0000_0000) by (bit_vector)
            requires
                b == y << 53u64,
        ;
        assert(rem == y % 0x800);
        let ghost sig: nat = if k <= 52 {
            (x as nat) * pow2((52 - k) as nat)
        } else {
            rne_div(x as nat, (k - 52) as nat)
        };
        if k <= 52 {
            // n >= 11: the shifted value keeps every bit of x, the conversion is exact
            assert(y as nat == ((x as nat) * pow2((n - 11) as nat)) * pow2(11)) by {
                lemma_pow2_adds((n - 11) as nat, 11);
                lemma_mul_is_associative(x as int, pow2((n - 11) as nat) as int, pow2(11) as int);
            }
            lemma_mod_multiples_basic(((x as nat) * pow2((n - 11) as nat)) as int, pow2(11) as int);
            assert(rem == 0);
            assert(m == a);
            assert(a == (x as nat) * pow2((n - 11) as nat)) by {
                lemma_mul_is_commutative(
                    pow2(11) as int,
                    ((x as nat) * pow2((n - 11) as nat)) as int,
                );
                lemma_div_multiples_vanish(
                    ((x as nat) * pow2((n - 11) as nat)) as int,
                    pow2(11) as int,
                );
            }
            assert(m == sig);
        } else {
            // n < 11: round the low 11 - n bits of x away, to nearest, ties to even
            assert(m == rne_div(y as nat, 11));
            lemma_rne_scale(x as nat, (k - 52) as nat, n as nat);
            assert(m == sig);
        }
        assert(pow2(52) <= sig);
        lemma_u64_shl_is_mul(e, 52);
        assert((1023 + k) * pow2(52) == e * pow2(52) + pow2(52)) by {
            lemma_mul_is_distributive_add_other_way(pow2(52) as int, e as int, 1);
        }
        assert(bit_len(x as nat) - 1 == k);
    }
    (e << 52) + m  // + not |, so the mantissa can overflow into the exponent
}


pub fn i8_to_f32(i: i8) -> (r: u32)
    ensures
        r == i_to_f32_bits(i as int),
{
    let sign_bit: u32 = if i < 0 { 0x8000_0000 } else { 0 };
    // the magnitude of i, with the most negative value handled exactly
    let mag: u8 = if i >= 0 { i as u8 } else { ((-(i + 1)) as u8) + 1 };
    let ub: u32 = u8_to_f32(mag);
    proof {
        lemma2_to64();
        lemma2_to64_rest();
        lemma_pow2_adds(64, 64);
        lemma_pow2_strictly_increases(64, 128);
        lemma_u_to_f32_bits_in_range(mag as nat);
        lemma_or_high_bit_u32(ub);
    }
    ub | sign_bit
}


pub fn i16_to_f32(i: i16) -> (r: u32)
    ensures
        r == i_to_f32_bits(i as int),
{
    let sign_bit: u32 = if i < 0 { 0x8000_0000 } else { 0 };
    // the magnitude of i, with the most negative value handled exactly
    let mag: u16 = if i >= 0 { i as u16 } else { ((-(i + 1)) as u16) + 1 };
    let ub: u32 = u16_to_f32(mag);
    proof {
        lemma2_to64();
        lemma2_to64_rest();
        lemma_pow2_adds(64, 64);
        lemma_pow2_strictly_increases(64, 128);
        lemma_u_to_f32_bits_in_range(mag as nat);
        lemma_or_high_bit_u32(ub);
    }
    ub | sign_bit
}


pub fn i32_to_f32(i: i32) -> (r: u32)
    ensures
        r == i_to_f32_bits(i as int),
{
    let sign_bit: u32 = if i < 0 { 0x8000_0000 } else { 0 };
    // the magnitude of i, with the most negative value handled exactly
    let mag: u32 = if i >= 0 { i as u32 } else { ((-(i + 1)) as u32) + 1 };
    let ub: u32 = u32_to_f32(mag);
    proof {
        lemma2_to64();
        lemma2_to64_rest();
        lemma_pow2_adds(64, 64);
        lemma_pow2_strictly_increases(64, 128);
        lemma_u_to_f32_bits_in_range(mag as nat);
        lemma_or_high_bit_u32(ub);
    }
    ub | sign_bit
}


pub fn i64_to_f32(i: i64) -> (r: u32)
    ensures
        r == i_to_f32_bits(i as int),
{
    let sign_bit: u32 = if i < 0 { 0x8000_0000 } else { 0 };
    // the magnitude of i, with the most negative value handled exactly
    let mag: u64 = if i >= 0 { i as u64 } else { ((-(i + 1)) as u64) + 1 };
    let ub: u32 = u64_to_f32(mag);
    proof {
        lemma2_to64();
        lemma2_to64_rest();
        lemma_pow2_adds(64, 64);
        lemma_pow2_strictly_increases(64, 128);
        lemma_u_to_f32_bits_in_range(mag as nat);
        lemma_or_high_bit_u32(ub);
    }
    ub | sign_bit
}


pub fn i128_to_f32(i: i128) -> (r: u32)
    ensures
        r == i_to_f32_bits(i as int),
{
    let sign_bit: u32 = if i < 0 { 0x8000_0000 } else { 0 };
    // the magnitude of i, with the most negative value handled exactly
    let mag: u128 = if i >= 0 { i as u128 } else { ((-(i + 1)) as u128) + 1 };
    let ub: u32 = u128_to_f32(mag);
    proof {
        lemma2_to64();
        lemma2_to64_rest();
        lemma_pow2_adds(64, 64);
        lemma_pow2_strictly_increases(64, 128);
        lemma_u_to_f32_bits_in_range(mag as nat);
        lemma_or_high_bit_u32(ub);
    }
    ub | sign_bit
}


pub fn i8_to_f64(i: i8) -> (r: u64)
    ensures
        r == i_to_f64_bits(i as int),
{
    let sign_bit: u64 = if i < 0 { 0x8000_0000_0000_0000 } else { 0 };
    // the magnitude of i, with the most negative value handled exactly
    let mag: u8 = if i >= 0 { i as u8 } else { ((-(i + 1)) as u8) + 1 };
    let ub: u64 = u8_to_f64(mag);
    proof {
        lemma2_to64();
        lemma2_to64_rest();
        lemma_pow2_adds(64, 64);
        lemma_pow2_strictly_increases(64, 128);
        lemma_u_to_f64_bits_in_range(mag as nat);
        lemma_or_high_bit_u64(ub);
    }
    ub | sign_bit
}


pub fn i16_to_f64(i: i16) -> (r: u64)
    ensures
        r == i_to_f64_bits(i as int),
{
    let sign_bit: u64 = if i < 0 { 0x8000_0000_0000_0000 } else { 0 };
    // the magnitude of i, with the most negative value handled exactly
    let mag: u16 = if i >= 0 { i as u16 } else { ((-(i + 1)) as u16) + 1 };
    let ub: u64 = u16_to_f64(mag);
    proof {
        lemma2_to64();
        lemma2_to64_rest();
        lemma_pow2_adds(64, 64);
        lemma_pow2_strictly_increases(64, 128);
        lemma_u_to_f64_bits_in_range(mag as nat);
        lemma_or_high_bit_u64(ub);
    }
    ub | sign_bit
}


pub fn i32_to_f64(i: i32) -> (r: u64)
    ensures
        r == i_to_f64_bits(i as int),
{
    let sign_bit: u64 = if i < 0 { 0x8000_0000_0000_0000 } else { 0 };
    // the magnitude of i, with the most negative value handled exactly
    let mag: u32 = if i >= 0 { i as u32 } else { ((-(i + 1)) as u32) + 1 };
    let ub: u64 = u32_to_f64(mag);
    proof {
        lemma2_to64();
        lemma2_to64_rest();
        lemma_pow2_adds(64, 64);
        lemma_pow2_strictly_increases(64, 128);
        lemma_u_to_f64_bits_in_range(mag as nat);
        lemma_or_high_bit_u64(ub);
    }
    ub | sign_bit
}


pub fn i64_to_f64(i: i64) -> (r: u64)
    ensures
        r == i_to_f64_bits(i as int),
{
    let sign_bit: u64 = if i < 0 { 0x8000_0000_0000_0000 } else { 0 };
    // the magnitude of i, with the most negative value handled exactly
    let mag: u64 = if i >= 0 { i as u64 } else { ((-(i + 1)) as u64) + 1 };
    let ub: u64 = u64_to_f64(mag);
    proof {
        lemma2_to64();
        lemma2_to64_rest();
        lemma_pow2_adds(64, 64);
        lemma_pow2_strictly_increases(64, 128);
        lemma_u_to_f64_bits_in_range(mag as nat);
        lemma_or_high_bit_u64(ub);
    }
    ub | sign_bit
}


pub fn i128_to_f64(i: i128) -> (r: u64)
    ensures
        r == i_to_f64_bits(i as int),
{
    let sign_bit: u64 = if i < 0 { 0x8000_0000_0000_0000 } else { 0 };
    // the magnitude of i, with the most negative value handled exactly
    let mag: u128 = if i >= 0 { i as u128 } else { ((-(i + 1)) as u128) + 1 };
    let ub: u64 = u128_to_f64(mag);
    proof {
        lemma2_to64();
        lemma2_to64_rest();
        lemma_pow2_adds(64, 64);
        lemma_pow2_strictly_increases(64, 128);
        lemma_u_to_f64_bits_in_range(mag as nat);
        lemma_or_high_bit_u64(ub);
    }
    ub | sign_bit
}

pub fn f32_to_u8(f: u32) -> (r: u8)
    ensures
        r == f32_to_uint(f as nat, 8),
{
    proof {
        lemma2_to64();
        lemma_u32_shr_is_div(f, 23);
    }
    if f < 0x3F80_0000 {  // beneath 127 << 23: magnitude below one
        proof {
            lemma_small_mod(f as nat, pow2(31));
            lemma_div_pow2_ordering(f as nat, 127, 23);
        }
        0
    } else if f < 0x4380_0000 {  // beneath 135 << 23: in range
        let m: u8 = 1 << 7 | (f >> 16) as u8;  // mantissa and the implicit 1-bit
        let s: u32 = 134 - (f >> 23);  // shift based on the exponent and bias
        proof {
            lemma_small_mod(f as nat, pow2(31));
            lemma_div_pow2_ordering(f as nat, 127, 23);
            lemma_div_pow2_ordering(f as nat, 135, 23);
            let ghost ee: nat = (f as nat) / pow2(23);
            let ghost z: nat = pow2(23) + (f as nat) % pow2(23);
            lemma_pack_f32_w8(f, m);
            assert(m == z / pow2(16));
            lemma_u8_shr_is_div(m, s as u8);
            lemma_div_pow2_chain(z, 16, s as nat);
            assert(z * pow2(0) == z) by {
                lemma_mul_basics(z as int);
            }
            lemma_mul_div_pow2_balance(z, (ee - 127) as nat, 23, 0, (150 - ee) as nat);
            lemma_trunc_magnitude_bounds(f as nat, 23, 127);
            lemma_pow2_le((ee - 127 + 1) as nat, 8);
        }
        m >> s
    } else if f <= 0x7F80_0000 {  // at most 255 << 23: too large (infinity included)
        proof {
            lemma_small_mod(f as nat, pow2(31));
            lemma_div_pow2_ordering(f as nat, 135, 23);
            lemma_trunc_magnitude_bounds(f as nat, 23, 127);
            lemma_pow2_le(8, ((f as nat) / pow2(23) - 127) as nat);
        }
        u8::MAX
    } else {  // negative or NaN
        proof {
            if f < 0x8000_0000 {
                lemma_small_mod(f as nat, pow2(31));
            }
        }
        0
    }
}


pub fn f32_to_u16(f: u32) -> (r: u16)
    ensures
        r == f32_to_uint(f as nat, 16),
{
    proof {
        lemma2_to64();
        lemma2_to64_rest();
        lemma_pow2_adds(64, 64);
        lemma_u32_shr_is_div(f, 23);
    }
    if f < 0x3F80_0000 {  // beneath 127 << 23: magnitude below one
        proof {
            lemma_small_mod(f as nat, pow2(31));
            lemma_div_pow2_ordering(f as nat, 127, 23);
        }
        0
    } else if f < 0x4780_0000 {  // beneath 143 << 23: in range
        proof {
            lemma_small_mod(f as nat, pow2(31));
            lemma_div_pow2_ordering(f as nat, 127, 23);
            lemma_div_pow2_ordering(f as nat, 143, 23);
        }
        let m: u16 = 1 << 15 | (f >> 8) as u16;  // mantissa and the implicit 1-bit
        let s: u32 = 142 - (f >> 23);  // shift based on the exponent and bias
        proof {
            let ghost ee: nat = (f as nat) / pow2(23);
            let ghost z: nat = pow2(23) + (f as nat) % pow2(23);
            lemma_pack_f32_w16(f, m);
            assert(m == z / pow2(8));
            lemma_u16_shr_is_div(m, s as u16);
            lemma_div_pow2_chain(z, 8, s as nat);
            assert(z * pow2(0) == z) by {
                lemma_mul_basics(z as int);
            }
            lemma_mul_div_pow2_balance(z, (ee - 127) as nat, 23, 0, (150 - ee) as nat);
            lemma_trunc_magnitude_bounds(f as nat, 23, 127);
            lemma_pow2_le((ee - 127 + 1) as nat, 16);
        }
        m >> s
    } else if f <= 0x7F80_0000 {  // at most 255 << 23: too large (infinity included)
        proof {
            lemma_small_mod(f as nat, pow2(31));
            lemma_div_pow2_ordering(f as nat, 143, 23);
            lemma_trunc_magnitude_bounds(f as nat, 23, 127);
            lemma_pow2_le(16, ((f as nat) / pow2(23) - 127) as nat);
        }
        u16::MAX
    } else {  // negative or NaN
        proof {
            if f < 0x8000_0000 {
                lemma_small_mod(f as nat, pow2(31));
            }
        }
        0
    }
}

pub fn f32_to_u32(f: u32) -> (r: u32)
    ensures
        r == f32_to_uint(f as nat, 32),
{
    proof {
        lemma2_to64();
        lemma2_to64_rest();
        lemma_pow2_adds(64, 64);
        lemma_u32_shr_is_div(f, 23);
    }
    if f < 0x3F80_0000 {  // beneath 127 << 23: magnitude below one
        proof {
            lemma_small_mod(f as nat, pow2(31));
            lemma_div_pow2_ordering(f as nat, 127, 23);
        }
        0
    } else if f < 0x4F80_0000 {  // beneath 159 << 23: in range
        proof {
            lemma_small_mod(f as nat, pow2(31));
            lemma_div_pow2_ordering(f as nat, 127, 23);
            lemma_div_pow2_ordering(f as nat, 159, 23);
        }
        let m: u32 = 1 << 31 | f << 8;  // mantissa and the implicit 1-bit
        let s: u32 = 158 - (f >> 23);  // shift based on the exponent and bias
        proof {
            let ghost ee: nat = (f as nat) / pow2(23);
            let ghost z: nat = pow2(23) + (f as nat) % pow2(23);
            lemma_pack_f32_w32(f, m);
            assert(m == z * pow2(8));
            lemma_u32_shr_is_div(m, s);
            lemma_mul_div_pow2_balance(z, 8, s as nat, (ee - 127) as nat, 23);
            lemma_trunc_magnitude_bounds(f as nat, 23, 127);
            lemma_pow2_le((ee - 127 + 1) as nat, 32);
        }
        m >> s
    } else if f <= 0x7F80_0000 {  // at most 255 << 23: too large (infinity included)
        proof {
            lemma_small_mod(f as nat, pow2(31));
            lemma_div_pow2_ordering(f as nat, 159, 23);
            lemma_trunc_magnitude_bounds(f as nat, 23, 127);
            lemma_pow2_le(32, ((f as nat) / pow2(23) - 127) as nat);
        }
        u32::MAX
    } else {  // negative or NaN
        proof {
            if f < 0x8000_0000 {
                lemma_small_mod(f as nat, pow2(31));
            }
        }
        0
    }
}

pub fn f32_to_u64(f: u32) -> (r: u64)
    ensures
        r == f32_to_uint(f as nat, 64),
{
    proof {
        lemma2_to64();
        lemma2_to64_rest();
        lemma_pow2_adds(64, 64);
        lemma_u32_shr_is_div(f, 23);
    }
    if f < 0x3F80_0000 {  // beneath 127 << 23: magnitude below one
        proof {
            lemma_small_mod(f as nat, pow2(31));
            lemma_div_pow2_ordering(f as nat, 127, 23);
        }
        0
    } else if f < 0x5F80_0000 {  // beneath 191 << 23: in range
        proof {
            lemma_small_mod(f as nat, pow2(31));
            lemma_div_pow2_ordering(f as nat, 127, 23);
            lemma_div_pow2_ordering(f as nat, 191, 23);
        }
        let m: u64 = 1 << 63 | (f as u64) << 40;  // mantissa and the implicit 1-bit
        let s: u32 = 190 - (f >> 23);  // shift based on the exponent and bias
        proof {
            let ghost ee: nat = (f as nat) / pow2(23);
            let ghost z: nat = pow2(23) + (f as nat) % pow2(23);
            lemma_pack_f32_w64(f, m);
            assert(m == z * pow2(40));
            lemma_u64_shr_is_div(m, s as u64);
            lemma_mul_div_pow2_balance(z, 40, s as nat, (ee - 127) as nat, 23);
            lemma_trunc_magnitude_bounds(f as nat, 23, 127);
            lemma_pow2_le((ee - 127 + 1) as nat, 64);
        }
        m >> s
    } else if f <= 0x7F80_0000 {  // at most 255 << 23: too large (infinity included)
        proof {
            lemma_small_mod(f as nat, pow2(31));
            lemma_div_pow2_ordering(f as nat, 191, 23);
            lemma_trunc_magnitude_bounds(f as nat, 23, 127);
            lemma_pow2_le(64, ((f as nat) / pow2(23) - 127) as nat);
        }
        u64::MAX
    } else {  // negative or NaN
        proof {
            if f < 0x8000_0000 {
                lemma_small_mod(f as nat, pow2(31));
            }
        }
        0
    }
}

pub fn f32_to_u128(f: u32) -> (r: u128)
    ensures
        r == f32_to_uint(f as nat, 128),
{
    proof {
        lemma2_to64();
        lemma2_to64_rest();
        lemma_pow2_adds(64, 64);
        lemma_u32_shr_is_div(f, 23);
    }
    if f < 0x3F80_0000 {  // beneath 127 << 23: magnitude below one
        proof {
            lemma_small_mod(f as nat, pow2(31));
            lemma_div_pow2_ordering(f as nat, 127, 23);
        }
        0
    } else if f < 0x7F80_0000 {  // beneath 255 << 23: in range
        proof {
            lemma_small_mod(f as nat, pow2(31));
            lemma_div_pow2_ordering(f as nat, 127, 23);
            lemma_div_pow2_ordering(f as nat, 255, 23);
        }
        let m: u128 = 1 << 127 | (f as u128) << 104;  // mantissa and the implicit 1-bit
        let s: u32 = 254 - (f >> 23);  // shift based on the exponent and bias
        proof {
            let ghost ee: nat = (f as nat) / pow2(23);
            let ghost z: nat = pow2(23) + (f as nat) % pow2(23);
            assert((1u128 << 23) == pow2(23) && (1u128 << 104) == pow2(104)) by {
                lemma_pow2_strictly_increases(23, 128);
                lemma_pow2_strictly_increases(104, 128);
                lemma_mul_basics(pow2(23) as int);
                lemma_mul_basics(pow2(104) as int);
                lemma_u128_shl_is_mul(1, 23);
                lemma_u128_shl_is_mul(1, 104);
            }
            lemma_pack_f32_w128(f, m);
            assert(m == z * pow2(104));
            lemma_u128_shr_is_div(m, s as u128);
            lemma_mul_div_pow2_balance(z, 104, s as nat, (ee - 127) as nat, 23);
            lemma_trunc_magnitude_bounds(f as nat, 23, 127);
            lemma_pow2_le((ee - 127 + 1) as nat, 128);
        }
        m >> s
    } else if f == 0x7F80_0000 {  // exactly 255 << 23: infinity
        proof {
            lemma_small_mod(f as nat, pow2(31));
            lemma_div_pow2_ordering(f as nat, 255, 23);
            lemma_trunc_magnitude_bounds(f as nat, 23, 127);
            lemma_pow2_le(128, ((f as nat) / pow2(23) - 127) as nat);
        }
        u128::MAX
    } else {  // negative or NaN
        proof {
            if f < 0x8000_0000 {
                lemma_small_mod(f as nat, pow2(31));
            }
        }
        0
    }
}

pub fn f64_to_u8(f: u64) -> (r: u8)
    ensures
        r == f64_to_uint(f as nat, 8),
{
    proof {
        lemma2_to64();
        lemma2_to64_rest();
        lemma_pow2_adds(64, 64);
        lemma_u64_shr_is_div(f, 52);
    }
    if f < 0x3FF0_0000_0000_0000 {  // beneath 1023 << 52: magnitude below one
        proof {
            lemma_small_mod(f as nat, pow2(63));
            lemma_div_pow2_ordering(f as nat, 1023, 52);
        }
        0
    } else if f < 0x4070_0000_0000_0000 {  // beneath 1031 << 52: in range
        proof {
            lemma_small_mod(f as nat, pow2(63));
            lemma_div_pow2_ordering(f as nat, 1023, 52);
            lemma_div_pow2_ordering(f as nat, 1031, 52);
        }
        let m: u8 = 1 << 7 | (f >> 45) as u8;  // mantissa and the implicit 1-bit
        let s: u64 = 1030 - (f >> 52);  // shift based on the exponent and bias
        proof {
            let ghost ee: nat = (f as nat) / pow2(52);
            let ghost z: nat = pow2(52) + (f as nat) % pow2(52);
            lemma_pack_f64_w8(f, m);
            assert(m == z / pow2(45));
            lemma_u8_shr_is_div(m, s as u8);
            lemma_div_pow2_chain(z, 45, s as nat);
            assert(z * pow2(0) == z) by {
                lemma_mul_basics(z as int);
            }
            lemma_mul_div_pow2_balance(z, (ee - 1023) as nat, 52, 0, (1075 - ee) as nat);
            lemma_trunc_magnitude_bounds(f as nat, 52, 1023);
            lemma_pow2_le((ee - 1023 + 1) as nat, 8);
        }
        m >> s
    } else if f <= 0x7FF0_0000_0000_0000 {  // at most 2047 << 52: too large (infinity included)
        proof {
            lemma_small_mod(f as nat, pow2(63));
            lemma_div_pow2_ordering(f as nat, 1031, 52);
            lemma_trunc_magnitude_bounds(f as nat, 52, 1023);
            lemma_pow2_le(8, ((f as nat) / pow2(52) - 1023) as nat);
        }
        u8::MAX
    } else {  // negative or NaN
        proof {
            if f < 0x8000_0000_0000_0000 {
                lemma_small_mod(f as nat, pow2(63));
            }
        }
        0
    }
}

pub fn f64_to_u16(f: u64) -> (r: u16)
    ensures
        r == f64_to_uint(f as nat, 16),
{
    proof {
        lemma2_to64();
        lemma2_to64_rest();
        lemma_pow2_adds(64, 64);
        lemma_u64_shr_is_div(f, 52);
    }
    if f < 0x3FF0_0000_0000_0000 {  // beneath 1023 << 52: magnitude below one
        proof {
            lemma_small_mod(f as nat, pow2(63));
            lemma_div_pow2_ordering(f as nat, 1023, 52);
        }
        0
    } else if f < 0x40F0_0000_0000_0000 {  // beneath 1039 << 52: in range
        proof {
            lemma_small_mod(f as nat, pow2(63));
            lemma_div_pow2_ordering(f as nat, 1023, 52);
            lemma_div_pow2_ordering(f as nat, 1039, 52);
        }
        let m: u16 = 1 << 15 | (f >> 37) as u16;  // mantissa and the implicit 1-bit
        let s: u64 = 1038 - (f >> 52);  // shift based on the exponent and bias
        proof {
            let ghost ee: nat = (f as nat) / pow2(52);
            let ghost z: nat = pow2(52) + (f as nat) % pow2(52);
            lemma_pack_f64_w16(f, m);
            assert(m == z / pow2(37));
            lemma_u16_shr_is_div(m, s as u16);
            lemma_div_pow2_chain(z, 37, s as nat);
            assert(z * pow2(0) == z) by {
                lemma_mul_basics(z as int);
            }
            lemma_mul_div_pow2_balance(z, (ee - 1023) as nat, 52, 0, (1075 - ee) as nat);
            lemma_trunc_magnitude_bounds(f as nat, 52, 1023);
            lemma_pow2_le((ee - 1023 + 1) as nat, 16);
        }
        m >> s
    } else if f <= 0x7FF0_0000_0000_0000 {  // at most 2047 << 52: too large (infinity included)
        proof {
            lemma_small_mod(f as nat, pow2(63));
            lemma_div_pow2_ordering(f as nat, 1039, 52);
            lemma_trunc_magnitude_bounds(f as nat, 52, 1023);
            lemma_pow2_le(16, ((f as nat) / pow2(52) - 1023) as nat);
        }
        u16::MAX
    } else {  // negative or NaN
        proof {
            if f < 0x8000_0000_0000_0000 {
                lemma_small_mod(f as nat, pow2(63));
            }
        }
        0
    }
}

pub fn f64_to_u32(f: u64) -> (r: u32)
    ensures
        r == f64_to_uint(f as nat, 32),
{
    proof {
        lemma2_to64();
        lemma2_to64_rest();
        lemma_pow2_adds(64, 64);
        lemma_u64_shr_is_div(f, 52);
    }
    if f < 0x3FF0_0000_0000_0000 {  // beneath 1023 << 52: magnitude below one
        proof {
            lemma_small_mod(f as nat, pow2(63));
            lemma_div_pow2_ordering(f as nat, 1023, 52);
        }
        0
    } else if f < 0x41F0_0000_0000_0000 {  // beneath 1055 << 52: in range
        proof {
            lemma_small_mod(f as nat, pow2(63));
            lemma_div_pow2_ordering(f as nat, 1023, 52);
            lemma_div_pow2_ordering(f as nat, 1055, 52);
        }
        let m: u32 = 1 << 31 | (f >> 21) as u32;  // mantissa and the implicit 1-bit
        let s: u64 = 1054 - (f >> 52);  // shift based on the exponent and bias
        proof {
            let ghost ee: nat = (f as nat) / pow2(52);
            let ghost z: nat = pow2(52) + (f as nat) % pow2(52);
            lemma_pack_f64_w32(f, m);
            assert(m == z / pow2(21));
            lemma_u32_shr_is_div(m, s as u32);
            lemma_div_pow2_chain(z, 21, s as nat);
            assert(z * pow2(0) == z) by {
                lemma_mul_basics(z as int);
            }
            lemma_mul_div_pow2_balance(z, (ee - 1023) as nat, 52, 0, (1075 - ee) as nat);
            lemma_trunc_magnitude_bounds(f as nat, 52, 1023);
            lemma_pow2_le((ee - 1023 + 1) as nat, 32);
        }
        m >> s
    } else if f <= 0x7FF0_0000_0000_0000 {  // at most 2047 << 52: too large (infinity included)
        proof {
            lemma_small_mod(f as nat, pow2(63));
            lemma_div_pow2_ordering(f as nat, 1055, 52);
            lemma_trunc_magnitude_bounds(f as nat, 52, 1023);
            lemma_pow2_le(32, ((f as nat) / pow2(52) - 1023) as nat);
        }
        u32::MAX
    } else {  // negative or NaN
        proof {
            if f < 0x8000_0000_0000_0000 {
                lemma_small_mod(f as nat, pow2(63));
            }
        }
        0
    }
}

pub fn f64_to_u64(f: u64) -> (r: u64)
    ensures
        r == f64_to_uint(f as nat, 64),
{
    proof {
        lemma2_to64();
        lemma2_to64_rest();
        lemma_pow2_adds(64, 64);
        lemma_u64_shr_is_div(f, 52);
    }
    if f < 0x3FF0_0000_0000_0000 {  // beneath 1023 << 52: magnitude below one
        proof {
            lemma_small_mod(f as nat, pow2(63));
            lemma_div_pow2_ordering(f as nat, 1023, 52);
        }
        0
    } else if f < 0x43F0_0000_0000_0000 {  // beneath 1087 << 52: in range
        proof {
            lemma_small_mod(f as nat, pow2(63));
            lemma_div_pow2_ordering(f as nat, 1023, 52);
            lemma_div_pow2_ordering(f as nat, 1087, 52);
        }
        let m: u64 = 1 << 63 | f << 11;  // mantissa and the implicit 1-bit
        let s: u64 = 1086 - (f >> 52);  // shift based on the exponent and bias
        proof {
            let ghost ee: nat = (f as nat) / pow2(52);
            let ghost z: nat = pow2(52) + (f as nat) % pow2(52);
            lemma_pack_f64_w64(f, m);
            assert(m == z * pow2(11));
            lemma_u64_shr_is_div(m, s as u64);
            lemma_mul_div_pow2_balance(z, 11, s as nat, (ee - 1023) as nat, 52);
            lemma_trunc_magnitude_bounds(f as nat, 52, 1023);
            lemma_pow2_le((ee - 1023 + 1) as nat, 64);
        }
        m >> s
    } else if f <= 0x7FF0_0000_0000_0000 {  // at most 2047 << 52: too large (infinity included)
        proof {
            lemma_small_mod(f as nat, pow2(63));
            lemma_div_pow2_ordering(f as nat, 1087, 52);
            lemma_trunc_magnitude_bounds(f as nat, 52, 1023);
            lemma_pow2_le(64, ((f as nat) / pow2(52) - 1023) as nat);
        }
        u64::MAX
    } else {  // negative or NaN
        proof {
            if f < 0x8000_0000_0000_0000 {
                lemma_small_mod(f as nat, pow2(63));
            }
        }
        0
    }
}

pub fn f64_to_u128(f: u64) -> (r: u128)
    ensures
        r == f64_to_uint(f as nat, 128),
{
    proof {
        lemma2_to64();
        lemma2_to64_rest();
        lemma_pow2_adds(64, 64);
        lemma_u64_shr_is_div(f, 52);
    }
    if f < 0x3FF0_0000_0000_0000 {  // beneath 1023 << 52: magnitude below one
        proof {
            lemma_small_mod(f as nat, pow2(63));
            lemma_div_pow2_ordering(f as nat, 1023, 52);
        }
        0
    } else if f < 0x47F0_0000_0000_0000 {  // beneath 1151 << 52: in range
        proof {
            lemma_small_mod(f as nat, pow2(63));
            lemma_div_pow2_ordering(f as nat, 1023, 52);
            lemma_div_pow2_ordering(f as nat, 1151, 52);
        }
        let m: u128 = 1 << 127 | (f as u128) << 75;  // mantissa and the implicit 1-bit
        let s: u64 = 1150 - (f >> 52);  // shift based on the exponent and bias
        proof {
            let ghost ee: nat = (f as nat) / pow2(52);
            let ghost z: nat = pow2(52) + (f as nat) % pow2(52);
            assert((1u128 << 52) == pow2(52) && (1u128 << 75) == pow2(75)) by {
                lemma_pow2_strictly_increases(52, 128);
                lemma_pow2_strictly_increases(75, 128);
                lemma_mul_basics(pow2(52) as int);
                lemma_mul_basics(pow2(75) as int);
                lemma_u128_shl_is_mul(1, 52);
                lemma_u128_shl_is_mul(1, 75);
            }
            lemma_pack_f64_w128(f, m);
            assert(m == z * pow2(75));
            lemma_u128_shr_is_div(m, s as u128);
            lemma_mul_div_pow2_balance(z, 75, s as nat, (ee - 1023) as nat, 52);
            lemma_trunc_magnitude_bounds(f as nat, 52, 1023);
            lemma_pow2_le((ee - 1023 + 1) as nat, 128);
        }
        m >> s
    } else if f <= 0x7FF0_0000_0000_0000 {  // at most 2047 << 52: too large (infinity included)
        proof {
            lemma_small_mod(f as nat, pow2(63));
            lemma_div_pow2_ordering(f as nat, 1151, 52);
            lemma_trunc_magnitude_bounds(f as nat, 52, 1023);
            lemma_pow2_le(128, ((f as nat) / pow2(52) - 1023) as nat);
        }
        u128::MAX
    } else {  // negative or NaN
        proof {
            if f < 0x8000_0000_0000_0000 {
                lemma_small_mod(f as nat, pow2(63));
            }
        }
        0
    }
}

pub fn f32_to_i8(f: u32) -> (r: i8)
    ensures
        r as int == f32_to_sint(f as nat, 8),
{
    let a: u32 = f & (!0 >> 1);  // remove sign bit
    proof {
        lemma2_to64();
        lemma2_to64_rest();
        lemma_pow2_adds(64, 64);
        lemma_pow2_pos(127);
        lemma_abs_mask_u32(f, a);
        lemma_u32_shr_is_div(a, 23);
    }
    if a < 0x3F80_0000 {  // beneath 127 << 23: magnitude below one
        proof {
            lemma_div_pow2_ordering(a as nat, 127, 23);
        }
        0
    } else if a < 0x4300_0000 {  // beneath 134 << 23: in range
        proof {
            lemma_div_pow2_ordering(a as nat, 127, 23);
            lemma_div_pow2_ordering(a as nat, 134, 23);
        }
        let m: u8 = 1 << 7 | (a >> 16) as u8;  // mantissa and the implicit 1-bit
        let s: u32 = 134 - (a >> 23);  // shift based on the exponent and bias
        proof {
            let ghost ee: nat = (a as nat) / pow2(23);
            let ghost z: nat = pow2(23) + (a as nat) % pow2(23);
            lemma_pack_f32_w8(a, m);
            assert(m == z / pow2(16));
            lemma_u8_shr_is_div(m, s as u8);
            lemma_div_pow2_chain(z, 16, s as nat);
            assert(z * pow2(0) == z) by {
                lemma_mul_basics(z as int);
            }
            lemma_mul_div_pow2_balance(z, (ee - 127) as nat, 23, 0, (150 - ee) as nat);
            lemma_trunc_magnitude_bounds(a as nat, 23, 127);
            lemma_pow2_le((ee - 127 + 1) as nat, 7);
        }
        let u: i8 = (m >> s) as i8;  // magnitude of the result
        if f >= 0x8000_0000 {
            -u
        } else {
            u
        }
    } else if a <= 0x7F80_0000 {  // at most 255 << 23: too large (infinity included)
        proof {
            lemma_div_pow2_ordering(a as nat, 134, 23);
            lemma_trunc_magnitude_bounds(a as nat, 23, 127);
            lemma_pow2_le(7, ((a as nat) / pow2(23) - 127) as nat);
        }
        if f >= 0x8000_0000 {
            i8::MIN
        } else {
            i8::MAX
        }
    } else {  // NaN
        0
    }
}

pub fn f32_to_i16(f: u32) -> (r: i16)
    ensures
        r as int == f32_to_sint(f as nat, 16),
{
    let a: u32 = f & (!0 >> 1);  // remove sign bit
    proof {
        lemma2_to64();
        lemma2_to64_rest();
        lemma_pow2_adds(64, 64);
        lemma_pow2_pos(127);
        lemma_abs_mask_u32(f, a);
        lemma_u32_shr_is_div(a, 23);
    }
    if a < 0x3F80_0000 {  // beneath 127 << 23: magnitude below one
        proof {
            lemma_div_pow2_ordering(a as nat, 127, 23);
        }
        0
    } else if a < 0x4700_0000 {  // beneath 142 << 23: in range
        proof {
            lemma_div_pow2_ordering(a as nat, 127, 23);
            lemma_div_pow2_ordering(a as nat, 142, 23);
        }
        let m: u16 = 1 << 15 | (a >> 8) as u16;  // mantissa and the implicit 1-bit
        let s: u32 = 142 - (a >> 23);  // shift based on the exponent and bias
        proof {
            let ghost ee: nat = (a as nat) / pow2(23);
            let ghost z: nat = pow2(23) + (a as nat) % pow2(23);
            lemma_pack_f32_w16(a, m);
            assert(m == z / pow2(8));
            lemma_u16_shr_is_div(m, s as u16);
            lemma_div_pow2_chain(z, 8, s as nat);
            assert(z * pow2(0) == z) by {
                lemma_mul_basics(z as int);
            }
            lemma_mul_div_pow2_balance(z, (ee - 127) as nat, 23, 0, (150 - ee) as nat);
            lemma_trunc_magnitude_bounds(a as nat, 23, 127);
            lemma_pow2_le((ee - 127 + 1) as nat, 15);
        }
        let u: i16 = (m >> s) as i16;  // magnitude of the result
        if f >= 0x8000_0000 {
            -u
        } else {
            u
        }
    } else if a <= 0x7F80_0000 {  // at most 255 << 23: too large (infinity included)
        proof {
            lemma_div_pow2_ordering(a as nat, 142, 23);
            lemma_trunc_magnitude_bounds(a as nat, 23, 127);
            lemma_pow2_le(15, ((a as nat) / pow2(23) - 127) as nat);
        }
        if f >= 0x8000_0000 {
            i16::MIN
        } else {
            i16::MAX
        }
    } else {  // NaN
        0
    }
}

pub fn f32_to_i32(f: u32) -> (r: i32)
    ensures
        r as int == f32_to_sint(f as nat, 32),
{
    let a: u32 = f & (!0 >> 1);  // remove sign bit
    proof {
        lemma2_to64();
        lemma2_to64_rest();
        lemma_pow2_adds(64, 64);
        lemma_pow2_pos(127);
        lemma_abs_mask_u32(f, a);
        lemma_u32_shr_is_div(a, 23);
    }
    if a < 0x3F80_0000 {  // beneath 127 << 23: magnitude below one
        proof {
            lemma_div_pow2_ordering(a as nat, 127, 23);
        }
        0
    } else if a < 0x4F00_0000 {  // beneath 158 << 23: in range
        proof {
            lemma_div_pow2_ordering(a as nat, 127, 23);
            lemma_div_pow2_ordering(a as nat, 158, 23);
        }
        let m: u32 = 1 << 31 | a << 8;  // mantissa and the implicit 1-bit
        let s: u32 = 158 - (a >> 23);  // shift based on the exponent and bias
        proof {
            let ghost ee: nat = (a as nat) / pow2(23);
            let ghost z: nat = pow2(23) + (a as nat) % pow2(23);
            lemma_pack_f32_w32(a, m);
            assert(m == z * pow2(8));
            lemma_u32_shr_is_div(m, s);
            lemma_mul_div_pow2_balance(z, 8, s as nat, (ee - 127) as nat, 23);
            lemma_trunc_magnitude_bounds(a as nat, 23, 127);
            lemma_pow2_le((ee - 127 + 1) as nat, 31);
        }
        let u: i32 = (m >> s) as i32;  // magnitude of the result
        if f >= 0x8000_0000 {
            -u
        } else {
            u
        }
    } else if a <= 0x7F80_0000 {  // at most 255 << 23: too large (infinity included)
        proof {
            lemma_div_pow2_ordering(a as nat, 158, 23);
            lemma_trunc_magnitude_bounds(a as nat, 23, 127);
            lemma_pow2_le(31, ((a as nat) / pow2(23) - 127) as nat);
        }
        if f >= 0x8000_0000 {
            i32::MIN
        } else {
            i32::MAX
        }
    } else {  // NaN
        0
    }
}

pub fn f32_to_i64(f: u32) -> (r: i64)
    ensures
        r as int == f32_to_sint(f as nat, 64),
{
    let a: u32 = f & (!0 >> 1);  // remove sign bit
    proof {
        lemma2_to64();
        lemma2_to64_rest();
        lemma_pow2_adds(64, 64);
        lemma_pow2_pos(127);
        lemma_abs_mask_u32(f, a);
        lemma_u32_shr_is_div(a, 23);
    }
    if a < 0x3F80_0000 {  // beneath 127 << 23: magnitude below one
        proof {
            lemma_div_pow2_ordering(a as nat, 127, 23);
        }
        0
    } else if a < 0x5F00_0000 {  // beneath 190 << 23: in range
        proof {
            lemma_div_pow2_ordering(a as nat, 127, 23);
            lemma_div_pow2_ordering(a as nat, 190, 23);
        }
        let m: u64 = 1 << 63 | (a as u64) << 40;  // mantissa and the implicit 1-bit
        let s: u32 = 190 - (a >> 23);  // shift based on the exponent and bias
        proof {
            let ghost ee: nat = (a as nat) / pow2(23);
            let ghost z: nat = pow2(23) + (a as nat) % pow2(23);
            lemma_pack_f32_w64(a, m);
            assert(m == z * pow2(40));
            lemma_u64_shr_is_div(m, s as u64);
            lemma_mul_div_pow2_balance(z, 40, s as nat, (ee - 127) as nat, 23);
            lemma_trunc_magnitude_bounds(a as nat, 23, 127);
            lemma_pow2_le((ee - 127 + 1) as nat, 63);
        }
        let u: i64 = (m >> s) as i64;  // magnitude of the result
        if f >= 0x8000_0000 {
            -u
        } else {
            u
        }
    } else if a <= 0x7F80_0000 {  // at most 255 << 23: too large (infinity included)
        proof {
            lemma_div_pow2_ordering(a as nat, 190, 23);
            lemma_trunc_magnitude_bounds(a as nat, 23, 127);
            lemma_pow2_le(63, ((a as nat) / pow2(23) - 127) as nat);
        }
        if f >= 0x8000_0000 {
            i64::MIN
        } else {
            i64::MAX
        }
    } else {  // NaN
        0
    }
}

pub fn f32_to_i128(f: u32) -> (r: i128)
    ensures
        r as int == f32_to_sint(f as nat, 128),
{
    let a: u32 = f & (!0 >> 1);  // remove sign bit
    proof {
        lemma2_to64();
        lemma2_to64_rest();
        lemma_pow2_adds(64, 64);
        lemma_pow2_pos(127);
        lemma_abs_mask_u32(f, a);
        lemma_u32_shr_is_div(a, 23);
    }
    if a < 0x3F80_0000 {  // beneath 127 << 23: magnitude below one
        proof {
            lemma_div_pow2_ordering(a as nat, 127, 23);
        }
        0
    } else if a < 0x7F00_0000 {  // beneath 254 << 23: in range
        proof {
            lemma_div_pow2_ordering(a as nat, 127, 23);
            lemma_div_pow2_ordering(a as nat, 254, 23);
        }
        let m: u128 = 1 << 127 | (a as u128) << 104;  // mantissa and the implicit 1-bit
        let s: u32 = 254 - (a >> 23);  // shift based on the exponent and bias
        proof {
            let ghost ee: nat = (a as nat) / pow2(23);
            let ghost z: nat = pow2(23) + (a as nat) % pow2(23);
            assert((1u128 << 23) == pow2(23) && (1u128 << 104) == pow2(104)) by {
                lemma_pow2_strictly_increases(23, 128);
                lemma_pow2_strictly_increases(104, 128);
                lemma_mul_basics(pow2(23) as int);
                lemma_mul_basics(pow2(104) as int);
                lemma_u128_shl_is_mul(1, 23);
                lemma_u128_shl_is_mul(1, 104);
            }
            lemma_pack_f32_w128(a, m);
            assert(m == z * pow2(104));
            lemma_u128_shr_is_div(m, s as u128);
            lemma_mul_div_pow2_balance(z, 104, s as nat, (ee - 127) as nat, 23);
            lemma_trunc_magnitude_bounds(a as nat, 23, 127);
            lemma_pow2_le((ee - 127 + 1) as nat, 127);
            assert(pow2(127) == pow2(63) * pow2(64)) by {
                lemma_pow2_adds(63, 64);
            }
        }
        let u: i128 = (m >> s) as i128;  // magnitude of the result
        if f >= 0x8000_0000 {
            -u
        } else {
            u
        }
    } else if a <= 0x7F80_0000 {  // at most 255 << 23: too large (infinity included)
        proof {
            lemma_div_pow2_ordering(a as nat, 254, 23);
            lemma_trunc_magnitude_bounds(a as nat, 23, 127);
            lemma_pow2_le(127, ((a as nat) / pow2(23) - 127) as nat);
            assert(pow2(127) == pow2(63) * pow2(64)) by {
                lemma_pow2_adds(63, 64);
            }
        }
        if f >= 0x8000_0000 {
            i128::MIN
        } else {
            i128::MAX
        }
    } else {  // NaN
        0
    }
}

pub fn f64_to_i8(f: u64) -> (r: i8)
    ensures
        r as int == f64_to_sint(f as nat, 8),
{
    let a: u64 = f & (!0 >> 1);  // remove sign bit
    proof {
        lemma2_to64();
        lemma2_to64_rest();
        lemma_pow2_adds(64, 64);
        lemma_pow2_pos(127);
        lemma_abs_mask_u64(f, a);
        lemma_u64_shr_is_div(a, 52);
    }
    if a < 0x3FF0_0000_0000_0000 {  // beneath 1023 << 52: magnitude below one
        proof {
            lemma_div_pow2_ordering(a as nat, 1023, 52);
        }
        0
    } else if a < 0x4060_0000_0000_0000 {  // beneath 1030 << 52: in range
        proof {
            lemma_div_pow2_ordering(a as nat, 1023, 52);
            lemma_div_pow2_ordering(a as nat, 1030, 52);
        }
        let m: u8 = 1 << 7 | (a >> 45) as u8;  // mantissa and the implicit 1-bit
        let s: u64 = 1030 - (a >> 52);  // shift based on the exponent and bias
        proof {
            let ghost ee: nat = (a as nat) / pow2(52);
            let ghost z: nat = pow2(52) + (a as nat) % pow2(52);
            lemma_pack_f64_w8(a, m);
            assert(m == z / pow2(45));
            lemma_u8_shr_is_div(m, s as u8);
            lemma_div_pow2_chain(z, 45, s as nat);
            assert(z * pow2(0) == z) by {
                lemma_mul_basics(z as int);
            }
            lemma_mul_div_pow2_balance(z, (ee - 1023) as nat, 52, 0, (1075 - ee) as nat);
            lemma_trunc_magnitude_bounds(a as nat, 52, 1023);
            lemma_pow2_le((ee - 1023 + 1) as nat, 7);
        }
        let u: i8 = (m >> s) as i8;  // magnitude of the result
        if f >= 0x8000_0000_0000_0000 {
            -u
        } else {
            u
        }
    } else if a <= 0x7FF0_0000_0000_0000 {  // at most 2047 << 52: too large (infinity included)
        proof {
            lemma_div_pow2_ordering(a as nat, 1030, 52);
            lemma_trunc_magnitude_bounds(a as nat, 52, 1023);
            lemma_pow2_le(7, ((a as nat) / pow2(52) - 1023) as nat);
        }
        if f >= 0x8000_0000_0000_0000 {
            i8::MIN
        } else {
            i8::MAX
        }
    } else {  // NaN
        0
    }
}

pub fn f64_to_i16(f: u64) -> (r: i16)
    ensures
        r as int == f64_to_sint(f as nat, 16),
{
    let a: u64 = f & (!0 >> 1);  // remove sign bit
    proof {
        lemma2_to64();
        lemma2_to64_rest();
        lemma_pow2_adds(64, 64);
        lemma_pow2_pos(127);
        lemma_abs_mask_u64(f, a);
        lemma_u64_shr_is_div(a, 52);
    }
    if a < 0x3FF0_0000_0000_0000 {  // beneath 1023 << 52: magnitude below one
        proof {
            lemma_div_pow2_ordering(a as nat, 1023, 52);
        }
        0
    } else if a < 0x40E0_0000_0000_0000 {  // beneath 1038 << 52: in range
        proof {
            lemma_div_pow2_ordering(a as nat, 1023, 52);
            lemma_div_pow2_ordering(a as nat, 1038, 52);
        }
        let m: u16 = 1 << 15 | (a >> 37) as u16;  // mantissa and the implicit 1-bit
        let s: u64 = 1038 - (a >> 52);  // shift based on the exponent and bias
        proof {
            let ghost ee: nat = (a as nat) / pow2(52);
            let ghost z: nat = pow2(52) + (a as nat) % pow2(52);
            lemma_pack_f64_w16(a, m);
            assert(m == z / pow2(37));
            lemma_u16_shr_is_div(m, s as u16);
            lemma_div_pow2_chain(z, 37, s as nat);
            assert(z * pow2(0) == z) by {
                lemma_mul_basics(z as int);
            }
            lemma_mul_div_pow2_balance(z, (ee - 1023) as nat, 52, 0, (1075 - ee) as nat);
            lemma_trunc_magnitude_bounds(a as nat, 52, 1023);
            lemma_pow2_le((ee - 1023 + 1) as nat, 15);
        }
        let u: i16 = (m >> s) as i16;  // magnitude of the result
        if f >= 0x8000_0000_0000_0000 {
            -u
        } else {
            u
        }
    } else if a <= 0x7FF0_0000_0000_0000 {  // at most 2047 << 52: too large (infinity included)
        proof {
            lemma_div_pow2_ordering(a as nat, 1038, 52);
            lemma_trunc_magnitude_bounds(a as nat, 52, 1023);
            lemma_pow2_le(15, ((a as nat) / pow2(52) - 1023) as nat);
        }
        if f >= 0x8000_0000_0000_0000 {
            i16::MIN
        } else {
            i16::MAX
        }
    } else {  // NaN
        0
    }
}

pub fn f64_to_i32(f: u64) -> (r: i32)
    ensures
        r as int == f64_to_sint(f as nat, 32),
{
    let a: u64 = f & (!0 >> 1);  // remove sign bit
    proof {
        lemma2_to64();
        lemma2_to64_rest();
        lemma_pow2_adds(64, 64);
        lemma_pow2_pos(127);
        lemma_abs_mask_u64(f, a);
        lemma_u64_shr_is_div(a, 52);
    }
    if a < 0x3FF0_0000_0000_0000 {  // beneath 1023 << 52: magnitude below one
        proof {
            lemma_div_pow2_ordering(a as nat, 1023, 52);
        }
        0
    } else if a < 0x41E0_0000_0000_0000 {  // beneath 1054 << 52: in range
        proof {
            lemma_div_pow2_ordering(a as nat, 1023, 52);
            lemma_div_pow2_ordering(a as nat, 1054, 52);
        }
        let m: u32 = 1 << 31 | (a >> 21) as u32;  // mantissa and the implicit 1-bit
        let s: u64 = 1054 - (a >> 52);  // shift based on the exponent and bias
        proof {
            let ghost ee: nat = (a as nat) / pow2(52);
            let ghost z: nat = pow2(52) + (a as nat) % pow2(52);
            lemma_pack_f64_w32(a, m);
            assert(m == z / pow2(21));
            lemma_u32_shr_is_div(m, s as u32);
            lemma_div_pow2_chain(z, 21, s as nat);
            assert(z * pow2(0) == z) by {
                lemma_mul_basics(z as int);
            }
            lemma_mul_div_pow2_balance(z, (ee - 1023) as nat, 52, 0, (1075 - ee) as nat);
            lemma_trunc_magnitude_bounds(a as nat, 52, 1023);
            lemma_pow2_le((ee - 1023 + 1) as nat, 31);
        }
        let u: i32 = (m >> s) as i32;  // magnitude of the result
        if f >= 0x8000_0000_0000_0000 {
            -u
        } else {
            u
        }
    } else if a <= 0x7FF0_0000_0000_0000 {  // at most 2047 << 52: too large (infinity included)
        proof {
            lemma_div_pow2_ordering(a as nat, 1054, 52);
            lemma_trunc_magnitude_bounds(a as nat, 52, 1023);
            lemma_pow2_le(31, ((a as nat) / pow2(52) - 1023) as nat);
        }
        if f >= 0x8000_0000_0000_0000 {
            i32::MIN
        } else {
            i32::MAX
        }
    } else {  // NaN
        0
    }
}

pub fn f64_to_i64(f: u64) -> (r: i64)
    ensures
        r as int == f64_to_sint(f as nat, 64),
{
    let a: u64 = f & (!0 >> 1);  // remove sign bit
    proof {
        lemma2_to64();
        lemma2_to64_rest();
        lemma_pow2_adds(64, 64);
        lemma_pow2_pos(127);
        lemma_abs_mask_u64(f, a);
        lemma_u64_shr_is_div(a, 52);
    }
    if a < 0x3FF0_0000_0000_0000 {  // beneath 1023 << 52: magnitude below one
        proof {
            lemma_div_pow2_ordering(a as nat, 1023, 52);
        }
        0
    } else if a < 0x43E0_0000_0000_0000 {  // beneath 1086 << 52: in range
        proof {
            lemma_div_pow2_ordering(a as nat, 1023, 52);
            lemma_div_pow2_ordering(a as nat, 1086, 52);
        }
        let m: u64 = 1 << 63 | a << 11;  // mantissa and the implicit 1-bit
        let s: u64 = 1086 - (a >> 52);  // shift based on the exponent and bias
        proof {
            let ghost ee: nat = (a as nat) / pow2(52);
            let ghost z: nat = pow2(52) + (a as nat) % pow2(52);
            lemma_pack_f64_w64(a, m);
            assert(m == z * pow2(11));
            lemma_u64_shr_is_div(m, s as u64);
            lemma_mul_div_pow2_balance(z, 11, s as nat, (ee - 1023) as nat, 52);
            lemma_trunc_magnitude_bounds(a as nat, 52, 1023);
            lemma_pow2_le((ee - 1023 + 1) as nat, 63);
        }
        let u: i64 = (m >> s) as i64;  // magnitude of the result
        if f >= 0x8000_0000_0000_0000 {
            -u
        } else {
            u
        }
    } else if a <= 0x7FF0_0000_0000_0000 {  // at most 2047 << 52: too large (infinity included)
        proof {
            lemma_div_pow2_ordering(a as nat, 1086, 52);
            lemma_trunc_magnitude_bounds(a as nat, 52, 1023);
            lemma_pow2_le(63, ((a as nat) / pow2(52) - 1023) as nat);
        }
        if f >= 0x8000_0000_0000_0000 {
            i64::MIN
        } else {
            i64::MAX
        }
    } else {  // NaN
        0
    }
}

pub fn f64_to_i128(f: u64) -> (r: i128)
    ensures
        r as int == f64_to_sint(f as nat, 128),
{
    let a: u64 = f & (!0 >> 1);  // remove sign bit
    proof {
        lemma2_to64();
        lemma2_to64_rest();
        lemma_pow2_adds(64, 64);
        lemma_pow2_pos(127);
        lemma_abs_mask_u64(f, a);
        lemma_u64_shr_is_div(a, 52);
    }
    if a < 0x3FF0_0000_0000_0000 {  // beneath 1023 << 52: magnitude below one
        proof {
            lemma_div_pow2_ordering(a as nat, 1023, 52);
        }
        0
    } else if a < 0x47E0_0000_0000_0000 {  // beneath 1150 << 52: in range
        proof {
            lemma_div_pow2_ordering(a as nat, 1023, 52);
            lemma_div_pow2_ordering(a as nat, 1150, 52);
        }
        let m: u128 = 1 << 127 | (a as u128) << 75;  // mantissa and the implicit 1-bit
        let s: u64 = 1150 - (a >> 52);  // shift based on the exponent and bias
        proof {
            let ghost ee: nat = (a as nat) / pow2(52);
            let ghost z: nat = pow2(52) + (a as nat) % pow2(52);
            assert((1u128 << 52) == pow2(52) && (1u128 << 75) == pow2(75)) by {
                lemma_pow2_strictly_increases(52, 128);
                lemma_pow2_strictly_increases(75, 128);
                lemma_mul_basics(pow2(52) as int);
                lemma_mul_basics(pow2(75) as int);
                lemma_u128_shl_is_mul(1, 52);
                lemma_u128_shl_is_mul(1, 75);
            }
            lemma_pack_f64_w128(a, m);
            assert(m == z * pow2(75));
            lemma_u128_shr_is_div(m, s as u128);
            lemma_mul_div_pow2_balance(z, 75, s as nat, (ee - 1023) as nat, 52);
            lemma_trunc_magnitude_bounds(a as nat, 52, 1023);
            lemma_pow2_le((ee - 1023 + 1) as nat, 127);
            assert(pow2(127) == pow2(63) * pow2(64)) by {
                lemma_pow2_adds(63, 64);
            }
        }
        let u: i128 = (m >> s) as i128;  // magnitude of the result
        if f >= 0x8000_0000_0000_0000 {
            -u
        } else {
            u
        }
    } else if a <= 0x7FF0_0000_0000_0000 {  // at most 2047 << 52: too large (infinity included)
        proof {
            lemma_div_pow2_ordering(a as nat, 1150, 52);
            lemma_trunc_magnitude_bounds(a as nat, 52, 1023);
            lemma_pow2_le(127, ((a as nat) / pow2(52) - 1023) as nat);
            assert(pow2(127) == pow2(63) * pow2(64)) by {
                lemma_pow2_adds(63, 64);
            }
        }
        if f >= 0x8000_0000_0000_0000 {
            i128::MIN
        } else {
            i128::MAX
        }
    } else {  // NaN
        0
    }
}

} // verus!
