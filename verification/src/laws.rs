//! Properties relating the conversions to one another: ties round to even,
//! exactly representable integers survive a round trip, negating the input
//! flips only the sign bit, and the saturation values of the special
//! patterns.

use vstd::prelude::*;
use vstd::arithmetic::power2::{
    pow2, lemma_pow2_adds, lemma_pow2_pos, lemma_pow2_strictly_increases, lemma2_to64,
    lemma2_to64_rest,
};
use vstd::arithmetic::div_mod::{
    lemma_fundamental_div_mod, lemma_fundamental_div_mod_converse_div,
    lemma_fundamental_div_mod_converse_mod, lemma_small_mod,
};
use vstd::arithmetic::mul::{
    lemma_mul_basics, lemma_mul_inequality, lemma_mul_is_associative, lemma_mul_is_commutative,
    lemma_mul_is_distributive_add_other_way, lemma_mul_strict_inequality,
};
use crate::model::{
    bit_len, f32_to_sint, f32_to_uint, f64_to_sint, f64_to_uint, i_to_f32_bits, i_to_f64_bits,
    rne_div, rne_float_bits, u_to_f32_bits, u_to_f64_bits,
};
use crate::lemmas::{
    lemma_bit_len_bounds, lemma_div_pow2_ordering, lemma_pow2_le, lemma_rne_float_bits_bounds,
};

verus! {

/// Ties round to even: when `x` sits exactly halfway between two multiples
/// of `pow2(d)`, the nearest-even quotient is even.
pub proof fn lemma_rne_div_tie_is_even(x: nat, d: nat)
    requires
        d >= 1,
        x % pow2(d) == pow2((d - 1) as nat),
    ensures
        rne_div(x, d) % 2 == 0,
{
    lemma_pow2_adds((d - 1) as nat, 1);
    lemma2_to64();
    let q: nat = x / pow2(d);
    assert(2 * (x % pow2(d)) == pow2(d));
    if q % 2 == 0 {
        assert(rne_div(x, d) == q);
    } else {
        assert(rne_div(x, d) == q + 1);
        assert((q + 1) % 2 == 0) by (nonlinear_arith)
            requires
                q % 2 == 1,
        ;
    }
}

/// A nonzero integer never encodes to a subnormal: the exponent field of
/// the result is at least the bias, the exponent of one.
pub proof fn lemma_encoded_is_normal(x: nat, p: nat, bias: nat)
    requires
        x > 0,
    ensures
        rne_float_bits(x, p, bias) / pow2(p) >= bias,
{
    lemma_pow2_pos(p);
    lemma_rne_float_bits_bounds(x, p, bias);
    lemma_bit_len_bounds(x);
    assert(bias * pow2(p) <= (bias + bit_len(x) - 1) * pow2(p)) by {
        lemma_mul_inequality(bias as int, (bias + bit_len(x) - 1) as int, pow2(p) as int);
    }
    lemma_div_pow2_ordering(rne_float_bits(x, p, bias), bias, p);
}

/// The rounded quotient names the nearest multiple: the value
/// `rne_div(x, d) * pow2(d)` differs from `x` by at most half of `pow2(d)`,
/// so no other multiple of `pow2(d)` lies closer to `x`.
pub proof fn lemma_rne_div_is_nearest(x: nat, d: nat)
    ensures
        2 * (x as int - (rne_div(x, d) * pow2(d)) as int) <= pow2(d),
        2 * ((rne_div(x, d) * pow2(d)) as int - x as int) <= pow2(d),
{
    lemma_pow2_pos(d);
    let q: nat = x / pow2(d);
    let r: nat = x % pow2(d);
    lemma_fundamental_div_mod(x as int, pow2(d) as int);
    assert((q + 1) * pow2(d) == q * pow2(d) + pow2(d)) by {
        lemma_mul_is_distributive_add_other_way(pow2(d) as int, q as int, 1);
    }
    lemma_mul_is_commutative(pow2(d) as int, q as int);
}

/// Ties round to even at the level of the encoded bits: when the dropped
/// bits of `x` are exactly half a unit in the last place, the low bit of
/// the resulting pattern, hence of its stored mantissa, is zero.
pub proof fn lemma_rne_float_bits_tie_is_even(x: nat, p: nat, bias: nat)
    requires
        p >= 1,
        bit_len(x) > p + 1,
        x % pow2((bit_len(x) - 1 - p) as nat) == pow2((bit_len(x) - 2 - p) as nat),
    ensures
        rne_float_bits(x, p, bias) % 2 == 0,
{
    let k: nat = (bit_len(x) - 1) as nat;
    let d: nat = (k - p) as nat;
    lemma_rne_div_tie_is_even(x, d);
    let sig: nat = rne_div(x, d);
    assert(x > 0) by {
        lemma_pow2_pos((d - 1) as nat);
    }
    lemma_rne_float_bits_bounds(x, p, bias);
    // both the exponent part and pow2(p) are even, so the parity is sig's
    assert(((bias + k) * pow2(p)) % 2 == 0 && pow2(p) % 2 == 0) by {
        lemma_pow2_adds((p - 1) as nat, 1);
        lemma2_to64();
        lemma_mul_is_associative((bias + k) as int, pow2((p - 1) as nat) as int, 2);
        assert(((bias + k) * pow2((p - 1) as nat)) * 2 % 2 == 0) by (nonlinear_arith);
    }
    assert(pow2(p) <= (bias + k) * pow2(p)) by {
        lemma_mul_inequality(1, (bias + k) as int, pow2(p) as int);
        lemma_mul_basics(pow2(p) as int);
        lemma_mul_is_commutative((bias + k) as int, pow2(p) as int);
    }
    assert(rne_float_bits(x, p, bias) == (bias + k) * pow2(p) - pow2(p) + sig);
    assert(((bias + k) * pow2(p) - pow2(p) + sig) % 2 == 0) by (nonlinear_arith)
        requires
            ((bias + k) * pow2(p)) % 2 == 0,
            pow2(p) % 2 == 0,
            sig % 2 == 0,
            pow2(p) <= (bias + k) * pow2(p),
    ;
}

/// An integer that fits in the mantissa converts to binary64 exactly, and
/// converting the result back returns it: the round trip is lossless below
/// `pow2(53)`.
pub proof fn lemma_f64_exact_round_trip(x: u64)
    requires
        x < 0x20_0000_0000_0000u64,
    ensures
        f64_to_uint(u_to_f64_bits(x as nat), 64) == x,
{
    lemma2_to64();
    lemma2_to64_rest();
    lemma_pow2_pos(52);
    lemma_exact_round_trip(x as nat, 52, 1023, 64);
    let bits: nat = u_to_f64_bits(x as nat);
    assert(2046 * pow2(52) < 2047 * pow2(52) && 2047 * pow2(52) < 2048 * pow2(52))
        by (nonlinear_arith)
        requires
            pow2(52) > 0,
    ;
    assert(pow2(63) == 2048 * pow2(52)) by {
        lemma_pow2_adds(11, 52);
    }
    lemma_small_mod(bits, pow2(63));
}

/// An integer that fits in the mantissa converts to binary32 exactly, and
/// converting the result back returns it: the round trip is lossless below
/// `pow2(24)`.
pub proof fn lemma_f32_exact_round_trip(x: u32)
    requires
        x < 0x100_0000u32,
    ensures
        f32_to_uint(u_to_f32_bits(x as nat), 32) == x,
{
    lemma2_to64();
    lemma_pow2_pos(23);
    lemma_exact_round_trip(x as nat, 23, 127, 32);
    let bits: nat = u_to_f32_bits(x as nat);
    assert(254 * pow2(23) < 255 * pow2(23) && 255 * pow2(23) < 256 * pow2(23))
        by (nonlinear_arith)
        requires
            pow2(23) > 0,
    ;
    assert(pow2(31) == 256 * pow2(23)) by {
        lemma_pow2_adds(8, 23);
    }
    lemma_small_mod(bits, pow2(31));
}

/// The generic round trip: encoding an integer of at most `p + 1`
/// significant bits is exact, and truncating the encoded value recovers it.
proof fn lemma_exact_round_trip(x: nat, p: nat, bias: nat, w: nat)
    requires
        x < pow2(p + 1),
        1 <= p < bias,
        w >= p + 1,
        w <= 2 * bias,
        bias >= 3,
    ensures
        crate::model::trunc_magnitude(rne_float_bits(x, p, bias), p, bias) == x,
        rne_float_bits(x, p, bias) <= (2 * bias) * pow2(p),
        x > 0 ==> rne_float_bits(x, p, bias) >= bias * pow2(p),
        rne_float_bits(x, p, bias) / pow2(p) <= 2 * bias,
    decreases 0nat,
{
    lemma_pow2_pos(p);
    lemma_pow2_pos(bias);
    if x == 0 {
        lemma_small_mod(0, pow2(p));
        assert(0nat / pow2(p) == 0) by {
            lemma_fundamental_div_mod_converse_div(0, pow2(p) as int, 0, 0);
        }
    } else {
        let k: nat = (bit_len(x) - 1) as nat;
        lemma_bit_len_bounds(x);
        assert(k <= p) by {
            if k > p {
                lemma_pow2_le(p + 1, k);
            }
        }
        let sig: nat = x * pow2((p - k) as nat);
        assert(pow2(p) <= sig < 2 * pow2(p)) by {
            lemma_pow2_adds(k, (p - k) as nat);
            lemma_mul_inequality(pow2(k) as int, x as int, pow2((p - k) as nat) as int);
            lemma_pow2_adds(k + 1, (p - k) as nat);
            lemma_pow2_adds(p, 1);
            lemma2_to64();
            lemma_mul_strict_inequality(x as int, pow2(k + 1) as int, pow2((p - k) as nat) as int);
        }
        let bits: nat = rne_float_bits(x, p, bias);
        assert(bits == (bias + k) * pow2(p) + (sig - pow2(p)));
        // the exponent field is bias + k and the mantissa field sig - pow2(p)
        assert(bits / pow2(p) == bias + k && bits % pow2(p) == sig - pow2(p)) by {
            lemma_fundamental_div_mod_converse_div(
                bits as int,
                pow2(p) as int,
                (bias + k) as int,
                (sig - pow2(p)) as int,
            );
            lemma_fundamental_div_mod_converse_mod(
                bits as int,
                pow2(p) as int,
                (bias + k) as int,
                (sig - pow2(p)) as int,
            );
        }
        assert((bias + k) * pow2(p) <= (2 * bias) * pow2(p)) by {
            lemma_mul_inequality((bias + k) as int, (2 * bias) as int, pow2(p) as int);
        }
        assert(bits <= (bias + k + 1) * pow2(p)) by {
            lemma_mul_is_distributive_add_other_way(pow2(p) as int, (bias + k) as int, 1);
        }
        assert((bias + k + 1) * pow2(p) <= (2 * bias) * pow2(p)) by {
            lemma_mul_inequality((bias + k + 1) as int, (2 * bias) as int, pow2(p) as int);
        }
        assert(bias * pow2(p) <= (bias + k) * pow2(p)) by {
            lemma_mul_inequality(bias as int, (bias + k) as int, pow2(p) as int);
        }
        // truncating the magnitude undoes the scaling by pow2(p - k)
        assert(crate::model::trunc_magnitude(bits, p, bias) == sig * pow2(k) / pow2(p));
        assert(sig * pow2(k) == x * pow2(p)) by {
            lemma_mul_is_associative(x as int, pow2((p - k) as nat) as int, pow2(k) as int);
            lemma_pow2_adds((p - k) as nat, k);
        }
        assert(x * pow2(p) / pow2(p) == x) by {
            lemma_mul_is_commutative(x as int, pow2(p) as int);
            vstd::arithmetic::div_mod::lemma_div_multiples_vanish(x as int, pow2(p) as int);
        }
    }
}

/// Negating a signed integer flips exactly the sign bit of its binary32
/// encoding: the magnitude's bits are unchanged.
pub proof fn lemma_i_to_f32_bits_negate(i: int)
    requires
        i > 0,
    ensures
        i_to_f32_bits(-i) == pow2(31) + i_to_f32_bits(i),
{
}

/// Negating a signed integer flips exactly the sign bit of its binary64
/// encoding: the magnitude's bits are unchanged.
pub proof fn lemma_i_to_f64_bits_negate(i: int)
    requires
        i > 0,
    ensures
        i_to_f64_bits(-i) == pow2(63) + i_to_f64_bits(i),
{
}

/// Every NaN pattern, of either sign, truncates to zero, as unsigned and
/// as signed integer, for every target width.
pub proof fn lemma_f64_nan_to_zero(f: nat, w: nat)
    requires
        crate::model::f64_is_nan(f),
    ensures
        f64_to_uint(f, w) == 0,
        f64_to_sint(f, w) == 0,
{
}

/// Every NaN pattern, of either sign, truncates to zero, as unsigned and
/// as signed integer, for every target width.
pub proof fn lemma_f32_nan_to_zero(f: nat, w: nat)
    requires
        crate::model::f32_is_nan(f),
    ensures
        f32_to_uint(f, w) == 0,
        f32_to_sint(f, w) == 0,
{
}

/// The infinities saturate: positive infinity truncates to the largest
/// integer of the target, negative infinity to zero (unsigned) or the
/// smallest integer (signed).
pub proof fn lemma_f64_infinity_saturates(w: nat)
    requires
        1 <= w <= 128,
    ensures
        f64_to_uint(0x7FF0_0000_0000_0000, w) == pow2(w) - 1,
        f64_to_sint(0x7FF0_0000_0000_0000, w) == pow2((w - 1) as nat) - 1,
        f64_to_uint(0xFFF0_0000_0000_0000, w) == 0,
        f64_to_sint(0xFFF0_0000_0000_0000, w) == -(pow2((w - 1) as nat) as int),
{
    lemma2_to64();
    lemma2_to64_rest();
    let inf: nat = 0x7FF0_0000_0000_0000;
    lemma_small_mod(inf, pow2(63));
    assert((0xFFF0_0000_0000_0000nat) % pow2(63) == inf) by {
        lemma_fundamental_div_mod_converse_mod(
            0xFFF0_0000_0000_0000,
            pow2(63) as int,
            1,
            inf as int,
        );
    }
    assert(inf / pow2(52) == 2047 && inf % pow2(52) == 0) by {
        lemma_fundamental_div_mod_converse_div(inf as int, pow2(52) as int, 2047, 0);
        lemma_fundamental_div_mod_converse_mod(inf as int, pow2(52) as int, 2047, 0);
    }
    crate::lemmas::lemma_trunc_magnitude_bounds(inf, 52, 1023);
    lemma_pow2_le(w, 1024);
    lemma_pow2_le((w - 1) as nat, 1024);
    lemma_pow2_pos((w - 1) as nat);
    lemma_pow2_pos(w);
}

/// The infinities saturate, binary32: positive infinity truncates to the
/// largest integer of the target, negative infinity to zero (unsigned) or
/// the smallest integer (signed).
pub proof fn lemma_f32_infinity_saturates(w: nat)
    requires
        1 <= w <= 128,
    ensures
        f32_to_uint(0x7F80_0000, w) == pow2(w) - 1,
        f32_to_sint(0x7F80_0000, w) == pow2((w - 1) as nat) - 1,
        f32_to_uint(0xFF80_0000, w) == 0,
        f32_to_sint(0xFF80_0000, w) == -(pow2((w - 1) as nat) as int),
{
    lemma2_to64();
    let inf: nat = 0x7F80_0000;
    lemma_small_mod(inf, pow2(31));
    assert((0xFF80_0000nat) % pow2(31) == inf) by {
        lemma_fundamental_div_mod_converse_mod(0xFF80_0000, pow2(31) as int, 1, inf as int);
    }
    assert(inf / pow2(23) == 255 && inf % pow2(23) == 0) by {
        lemma_fundamental_div_mod_converse_div(inf as int, pow2(23) as int, 255, 0);
        lemma_fundamental_div_mod_converse_mod(inf as int, pow2(23) as int, 255, 0);
    }
    crate::lemmas::lemma_trunc_magnitude_bounds(inf, 23, 127);
    lemma_pow2_le(w, 128);
    lemma_pow2_le((w - 1) as nat, 128);
    lemma_pow2_pos((w - 1) as nat);
    lemma_pow2_pos(w);
}

/// No integer of up to 128 bits can overflow the binary64 encoding: the
/// result stays strictly beneath the infinity pattern.
pub proof fn lemma_u_to_f64_bits_never_infinite(x: nat)
    requires
        x < pow2(128),
    ensures
        u_to_f64_bits(x) < 2047 * pow2(52),
{
    lemma_pow2_pos(52);
    crate::lemmas::lemma_u_to_f64_bits_in_range(x);
    assert(1151 * pow2(52) < 2047 * pow2(52)) by {
        lemma_mul_strict_inequality(1151, 2047, pow2(52) as int);
    }
}

/// No integer of up to 64 bits can overflow the binary32 encoding; only
/// the 128-bit conversion can reach the infinity pattern.
pub proof fn lemma_u_to_f32_bits_finite_below_u128(x: nat)
    requires
        x < pow2(64),
    ensures
        u_to_f32_bits(x) < 255 * pow2(23),
{
    lemma2_to64();
    if x > 0 {
        lemma_rne_float_bits_bounds(x, 23, 127);
        lemma_bit_len_bounds(x);
        assert(bit_len(x) <= 64) by {
            if bit_len(x) > 64 {
                lemma_pow2_le(64, (bit_len(x) - 1) as nat);
            }
        }
        assert((127 + bit_len(x)) * pow2(23) <= 191 * pow2(23)) by {
            lemma_mul_inequality((127 + bit_len(x)) as int, 191, pow2(23) as int);
        }
        assert(191 * pow2(23) < 255 * pow2(23)) by {
            lemma_mul_strict_inequality(191, 255, pow2(23) as int);
        }
    } else {
        lemma_pow2_pos(23);
        assert(0 < 255 * pow2(23)) by {
            lemma_mul_strict_inequality(0, 255, pow2(23) as int);
        }
    }
}

/// The binary32 encoding of a 128-bit integer overflows to infinity for
/// exactly the integers at or above `pow2(128) - pow2(103)`: everything
/// beneath that rounds to a finite value.
pub proof fn lemma_u128_to_f32_overflow_boundary(x: nat)
    requires
        x < pow2(128),
    ensures
        u_to_f32_bits(x) == 255 * pow2(23) <==> x >= pow2(128) - pow2(103),
{
    lemma2_to64();
    lemma2_to64_rest();
    lemma_pow2_adds(64, 64);
    lemma_pow2_adds(103, 1);
    lemma_pow2_adds(103, 25);
    lemma_pow2_adds(104, 24);
    lemma_pow2_pos(103);
    lemma_pow2_pos(104);
    if x == 0 {
        lemma_pow2_strictly_increases(103, 128);
        return ;
    }
    let k: nat = (bit_len(x) - 1) as nat;
    lemma_bit_len_bounds(x);
    assert(k <= 127) by {
        if k > 127 {
            lemma_pow2_le(128, k);
        }
    }
    if k <= 126 {
        // at most 127 significant bits: the result stays beneath infinity
        lemma_rne_float_bits_bounds(x, 23, 127);
        assert((127 + bit_len(x)) * pow2(23) <= 254 * pow2(23)) by {
            lemma_mul_inequality((127 + bit_len(x)) as int, 254, pow2(23) as int);
        }
        assert(x < pow2(128) - pow2(103)) by {
            lemma_pow2_le(k + 1, 127);
            lemma_pow2_strictly_increases(103, 127);
            lemma_pow2_adds(127, 1);
        }
    } else {
        // 128 significant bits: infinity exactly when the top 24 bits are
        // all ones and the rest round up
        let d: nat = 104;
        let q: nat = x / pow2(d);
        let r: nat = x % pow2(d);
        lemma_fundamental_div_mod(x as int, pow2(d) as int);
        assert(pow2(23) <= q < pow2(24)) by {
            lemma_div_pow2_ordering(x, pow2(24), d);
            lemma_div_pow2_ordering(x, pow2(23), d);
            lemma_pow2_adds(24, 104);
            lemma_pow2_adds(23, 104);
        }
        let sig: nat = rne_div(x, d);
        assert(u_to_f32_bits(x) == 254 * pow2(23) + sig - pow2(23));
        // infinity means the significand carried all the way out
        assert(u_to_f32_bits(x) == 255 * pow2(23) <==> sig == pow2(24));
        if x >= pow2(128) - pow2(103) {
            assert(q >= pow2(24) - 1) by {
                if q < pow2(24) - 1 {
                    assert(x < (pow2(24) - 1) * pow2(104)) by {
                        lemma_div_pow2_ordering(x, (pow2(24) - 1) as nat, d);
                    }
                    assert((pow2(24) - 1) * pow2(104) == pow2(128) - pow2(104)) by {
                        lemma_mul_is_distributive_add_other_way(
                            pow2(104) as int,
                            (pow2(24) - 1) as int,
                            1,
                        );
                    }
                    lemma_pow2_strictly_increases(103, 104);
                }
            }
            assert(q == pow2(24) - 1);
            assert(r >= pow2(103)) by {
                lemma_mul_is_commutative(pow2(104) as int, q as int);
                assert(q * pow2(104) + r == x);
                lemma_mul_is_distributive_add_other_way(
                    pow2(104) as int,
                    (pow2(24) - 1) as int,
                    1,
                );
            }
            // an odd quotient at or above the halfway point rounds up
            assert(2 * r >= pow2(104));
            assert(q % 2 == 1) by {
                assert((pow2(23) * 2 - 1) % 2 == 1) by (nonlinear_arith);
            }
            assert(sig == q + 1);
        }
        if sig == pow2(24) {
            // rounding up needs the largest quotient and half a unit more
            assert(q == pow2(24) - 1 && 2 * r >= pow2(104)) by {
                if q < pow2(24) - 1 || 2 * r < pow2(104) {
                    assert(sig <= q + 1);
                    assert(2 * r < pow2(104) ==> sig == q || (2 * r == pow2(104) && q % 2 == 1
                        && sig == q + 1));
                }
            }
            assert(x >= (pow2(24) - 1) * pow2(104) + pow2(103)) by {
                lemma_mul_is_commutative(pow2(104) as int, q as int);
            }
            assert((pow2(24) - 1) * pow2(104) == pow2(128) - pow2(104)) by {
                lemma_mul_is_distributive_add_other_way(
                    pow2(104) as int,
                    (pow2(24) - 1) as int,
                    1,
                );
            }
        }
    }
}

} // verus!
