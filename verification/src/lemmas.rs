//! Shared proof machinery: positions of leading bits, powers of two under
//! shifts, scaling invariance of rounding, and the branch-free rounding
//! expression used by the conversion kernel.

use vstd::prelude::*;
use vstd::calc;
use vstd::arithmetic::power2::{
    pow2, lemma_pow2_adds, lemma_pow2_pos, lemma_pow2_strictly_increases, lemma2_to64,
    lemma2_to64_rest,
};
use vstd::arithmetic::div_mod::{
    lemma_div_denominator, lemma_div_is_ordered, lemma_div_multiples_vanish,
    lemma_fundamental_div_mod, lemma_fundamental_div_mod_converse_div,
    lemma_fundamental_div_mod_converse_mod, lemma_multiply_divide_lt, lemma_small_div_converse,
};
use vstd::arithmetic::mul::{
    lemma_mul_basics, lemma_mul_inequality, lemma_mul_is_associative, lemma_mul_is_commutative,
    lemma_mul_is_distributive_add_other_way, lemma_mul_strict_inequality,
    lemma_mul_strict_inequality_converse,
};
use vstd::std_specs::bits::{
    axiom_u16_leading_zeros, axiom_u32_leading_zeros, axiom_u64_leading_zeros, u16_leading_zeros,
    u32_leading_zeros, u64_leading_zeros,
};
use vstd::bits::{lemma_u16_shr_is_div, lemma_u32_shr_is_div, lemma_u64_shr_is_div};
use crate::model::{bit_len, rne_div, rne_float_bits};

verus! {

/// `bit_len` is the inverse of the power-of-two interval: an integer between
/// two consecutive powers of two has the length of the upper one.
pub proof fn lemma_bit_len_interval(x: nat, k: nat)
    requires
        pow2(k) <= x < pow2(k + 1),
    ensures
        bit_len(x) == k + 1,
    decreases k,
{
    lemma_pow2_pos(k);
    if k == 0 {
        lemma2_to64();
        assert(x == 1);
        assert(bit_len(1) == bit_len(0) + 1);
        assert(bit_len(0) == 0);
    } else {
        lemma_pow2_strictly_increases(0, k);
        assert(x != 0);
        assert(bit_len(x) == bit_len(x / 2) + 1);
        lemma_pow2_adds((k - 1) as nat, 1);
        lemma_pow2_adds(k, 1);
        lemma2_to64();
        // x / 2 lies between pow2(k - 1) and pow2(k)
        assert(pow2(k) / 2 == pow2((k - 1) as nat)) by {
            lemma_div_multiples_vanish(pow2((k - 1) as nat) as int, 2);
        }
        lemma_div_is_ordered(pow2(k) as int, x as int, 2);
        assert(x / 2 < pow2(k)) by {
            lemma_multiply_divide_lt(x as int, 2, pow2(k) as int);
        }
        lemma_bit_len_interval(x / 2, (k - 1) as nat);
    }
}

/// Every positive integer lies between the powers of two its length names.
pub proof fn lemma_bit_len_bounds(x: nat)
    requires
        x > 0,
    ensures
        bit_len(x) >= 1,
        pow2((bit_len(x) - 1) as nat) <= x < pow2(bit_len(x)),
    decreases x,
{
    if x / 2 == 0 {
        assert(x == 1);
        lemma2_to64();
    } else {
        lemma_bit_len_bounds(x / 2);
        let l: nat = bit_len(x / 2);
        lemma_pow2_adds((l - 1) as nat, 1);
        lemma_pow2_adds(l, 1);
        lemma2_to64();
        lemma_fundamental_div_mod(x as int, 2);
    }
}

/// Dividing twice by powers of two is dividing by their product.
pub proof fn lemma_div_pow2_chain(z: nat, a: nat, b: nat)
    ensures
        z / pow2(a) / pow2(b) == z / pow2(a + b),
{
    lemma_pow2_pos(a);
    lemma_pow2_pos(b);
    lemma_pow2_adds(a, b);
    lemma_div_denominator(z as int, pow2(a) as int, pow2(b) as int);
}

/// A factor `pow2(k)` common to numerator and denominator cancels.
pub proof fn lemma_mul_div_pow2_shift(z: nat, a: nat, b: nat, k: nat)
    ensures
        z * pow2(a + k) / pow2(b + k) == z * pow2(a) / pow2(b),
{
    lemma_pow2_pos(a);
    lemma_pow2_pos(b);
    lemma_pow2_pos(k);
    lemma_pow2_adds(a, k);
    lemma_pow2_adds(b, k);
    assert(z * pow2(a + k) == (z * pow2(a)) * pow2(k)) by {
        lemma_mul_is_associative(z as int, pow2(a) as int, pow2(k) as int);
    }
    calc! {
        (==)
        z * pow2(a + k) / pow2(b + k); {
            lemma_div_denominator(
                (z * pow2(a + k)) as int,
                pow2(k) as int,
                pow2(b) as int,
            );
            lemma_mul_is_commutative(pow2(k) as int, pow2(b) as int);
        }
        (z * pow2(a + k) / pow2(k)) / pow2(b); {
            assert((z * pow2(a)) * pow2(k) / pow2(k) == z * pow2(a)) by {
                lemma_mul_is_commutative((z * pow2(a)) as int, pow2(k) as int);
                lemma_div_multiples_vanish((z * pow2(a)) as int, pow2(k) as int);
            }
        }
        z * pow2(a) / pow2(b);
    }
}

/// Division and remainder by `pow2(d + n)` of a value scaled by `pow2(n)`
/// are the scaled division and remainder by `pow2(d)`.
pub proof fn lemma_scale_div_mod(x: nat, d: nat, n: nat)
    ensures
        x * pow2(n) / pow2(d + n) == x / pow2(d),
        (x * pow2(n)) % pow2(d + n) == (x % pow2(d)) * pow2(n),
{
    lemma_pow2_pos(d);
    lemma_pow2_pos(n);
    lemma_pow2_pos(d + n);
    lemma_pow2_adds(d, n);
    let q: nat = x / pow2(d);
    let r: nat = x % pow2(d);
    lemma_fundamental_div_mod(x as int, pow2(d) as int);
    assert(x == pow2(d) * q + r);
    assert(x * pow2(n) == q * pow2(d + n) + r * pow2(n)) by {
        lemma_mul_is_distributive_add_other_way(
            pow2(n) as int,
            (pow2(d) * q) as int,
            r as int,
        );
        lemma_mul_is_associative(q as int, pow2(d) as int, pow2(n) as int);
        lemma_mul_is_commutative(pow2(d) as int, q as int);
    }
    assert(r * pow2(n) < pow2(d + n)) by {
        lemma_mul_strict_inequality(r as int, pow2(d) as int, pow2(n) as int);
        lemma_mul_is_commutative(r as int, pow2(n) as int);
        lemma_mul_is_commutative(pow2(d) as int, pow2(n) as int);
    }
    lemma_fundamental_div_mod_converse_div(
        (x * pow2(n)) as int,
        pow2(d + n) as int,
        q as int,
        (r * pow2(n)) as int,
    );
    lemma_fundamental_div_mod_converse_mod(
        (x * pow2(n)) as int,
        pow2(d + n) as int,
        q as int,
        (r * pow2(n)) as int,
    );
}

/// Rounding to nearest-even is invariant under scaling the dividend and the
/// divisor by the same power of two.
pub proof fn lemma_rne_scale(x: nat, d: nat, n: nat)
    ensures
        crate::model::rne_div(x * pow2(n), d + n) == crate::model::rne_div(x, d),
{
    lemma_scale_div_mod(x, d, n);
    lemma_pow2_pos(n);
    lemma_pow2_pos(d);
    let r: nat = x % pow2(d);
    assert(2 * (r * pow2(n)) == (2 * r) * pow2(n)) by {
        lemma_mul_is_associative(2, r as int, pow2(n) as int);
    }
    assert((2 * r) * pow2(n) < pow2(d) * pow2(n) <==> 2 * r < pow2(d)) by {
        if 2 * r < pow2(d) {
            lemma_mul_strict_inequality((2 * r) as int, pow2(d) as int, pow2(n) as int);
        }
        if (2 * r) * pow2(n) < pow2(d) * pow2(n) {
            lemma_mul_strict_inequality_converse(
                (2 * r) as int,
                pow2(d) as int,
                pow2(n) as int,
            );
        }
    }
    assert(pow2(d) * pow2(n) < (2 * r) * pow2(n) <==> pow2(d) < 2 * r) by {
        if pow2(d) < 2 * r {
            lemma_mul_strict_inequality(pow2(d) as int, (2 * r) as int, pow2(n) as int);
        }
        if pow2(d) * pow2(n) < (2 * r) * pow2(n) {
            lemma_mul_strict_inequality_converse(
                pow2(d) as int,
                (2 * r) as int,
                pow2(n) as int,
            );
        }
    }
    lemma_pow2_adds(d, n);
}

/// Shifting a `u128` left by `shift` is multiplication by `pow2(shift)`,
/// provided the product does not overflow.
pub proof fn lemma_u128_shl_is_mul(x: u128, shift: u128)
    requires
        shift < 128,
        x * pow2(shift as nat) <= u128::MAX,
    ensures
        x << shift == x * pow2(shift as nat),
    decreases shift,
{
    lemma2_to64();
    if shift == 0 {
        assert(x << 0u128 == x) by (bit_vector);
        assert(x << shift == x);
        assert(x * pow2(shift as nat) == x) by {
            lemma_mul_basics(x as int);
        }
    } else {
        assert(x * pow2((shift - 1) as nat) <= u128::MAX) by {
            lemma_pow2_strictly_increases((shift - 1) as nat, shift as nat);
            lemma_mul_inequality(
                pow2((shift - 1) as nat) as int,
                pow2(shift as nat) as int,
                x as int,
            );
            lemma_mul_is_commutative(x as int, pow2((shift - 1) as nat) as int);
            lemma_mul_is_commutative(x as int, pow2(shift as nat) as int);
        }
        lemma_u128_shl_is_mul(x, (shift - 1) as u128);
        let prev: u128 = x << ((shift - 1) as u128);
        assert(x * pow2(shift as nat) == prev * 2) by {
            lemma_pow2_adds((shift - 1) as nat, 1);
            lemma_mul_is_associative(x as int, pow2((shift - 1) as nat) as int, 2);
        }
        assert(prev * 2 <= u128::MAX);
        assert(prev < 0x8000_0000_0000_0000_0000_0000_0000_0000u128);
        assert(prev < 0x8000_0000_0000_0000_0000_0000_0000_0000u128 ==> (x << shift) == prev
            * 2) by (bit_vector)
            requires
                prev == x << ((shift - 1) as u128),
                0 < shift < 128,
        ;
        assert(x << shift == prev * 2);
    }
}

/// The count of leading zeros of a nonzero `u16` brackets it between two
/// powers of two.
pub proof fn lemma_clz_u16(x: u16)
    requires
        x != 0,
    ensures
        u16_leading_zeros(x) <= 15,
        pow2((15 - u16_leading_zeros(x)) as nat) <= x as nat,
        (x as nat) < pow2((16 - u16_leading_zeros(x)) as nat),
{
    axiom_u16_leading_zeros(x);
    let n: u16 = u16_leading_zeros(x) as u16;
    lemma2_to64();
    if n > 0 {
        lemma_u16_shr_is_div(x, (16 - n) as u16);
        lemma_small_div_converse(x as int, pow2((16 - n) as nat) as int);
        lemma_pow2_pos((16 - n) as nat);
    }
    // the bit at position 15 - n is set, so x / pow2(15 - n) is odd
    let v: u16 = x >> ((15 - n) as u16);
    assert(v & 1 != 0 ==> v % 2 == 1) by (bit_vector);
    lemma_u16_shr_is_div(x, (15 - n) as u16);
    lemma_pow2_pos((15 - n) as nat);
    lemma_fundamental_div_mod(x as int, pow2((15 - n) as nat) as int);
    assert(x as int == pow2((15 - n) as nat) * (v as int) + (x as nat) % pow2((15 - n) as nat));
    lemma_mul_inequality(1, v as int, pow2((15 - n) as nat) as int);
    lemma_mul_is_commutative(v as int, pow2((15 - n) as nat) as int);
}

/// The count of leading zeros of a nonzero `u32` brackets it between two
/// powers of two.
pub proof fn lemma_clz_u32(x: u32)
    requires
        x != 0,
    ensures
        u32_leading_zeros(x) <= 31,
        pow2((31 - u32_leading_zeros(x)) as nat) <= x as nat,
        (x as nat) < pow2((32 - u32_leading_zeros(x)) as nat),
{
    axiom_u32_leading_zeros(x);
    let n: u32 = u32_leading_zeros(x);
    lemma2_to64();
    if n > 0 {
        lemma_u32_shr_is_div(x, (32 - n) as u32);
        lemma_small_div_converse(x as int, pow2((32 - n) as nat) as int);
        lemma_pow2_pos((32 - n) as nat);
    }
    let v: u32 = x >> (31 - n);
    assert(v & 1 != 0 ==> v % 2 == 1) by (bit_vector);
    lemma_u32_shr_is_div(x, (31 - n) as u32);
    lemma_pow2_pos((31 - n) as nat);
    lemma_fundamental_div_mod(x as int, pow2((31 - n) as nat) as int);
    lemma_mul_inequality(1, v as int, pow2((31 - n) as nat) as int);
    lemma_mul_is_commutative(v as int, pow2((31 - n) as nat) as int);
}

/// The count of leading zeros of a nonzero `u64` brackets it between two
/// powers of two.
pub proof fn lemma_clz_u64(x: u64)
    requires
        x != 0,
    ensures
        0 <= u64_leading_zeros(x) <= 63,
        pow2((63 - u64_leading_zeros(x)) as nat) <= x as nat,
        (x as nat) < pow2((64 - u64_leading_zeros(x)) as nat),
{
    axiom_u64_leading_zeros(x);
    let n: u64 = u64_leading_zeros(x) as u64;
    lemma2_to64();
    lemma2_to64_rest();
    if n > 0 {
        lemma_u64_shr_is_div(x, (64 - n) as u64);
        lemma_small_div_converse(x as int, pow2((64 - n) as nat) as int);
        lemma_pow2_pos((64 - n) as nat);
    }
    let v: u64 = x >> ((63 - n) as u64);
    assert(v & 1 != 0 ==> v % 2 == 1) by (bit_vector);
    lemma_u64_shr_is_div(x, (63 - n) as u64);
    lemma_pow2_pos((63 - n) as nat);
    lemma_fundamental_div_mod(x as int, pow2((63 - n) as nat) as int);
    lemma_mul_inequality(1, v as int, pow2((63 - n) as nat) as int);
    lemma_mul_is_commutative(v as int, pow2((63 - n) as nat) as int);
}

/// The encoded bits of a positive integer lie between the exponent field of
/// its leading-one position and the next one: the rounded significand stays
/// within `[pow2(p), pow2(p + 1)]`.
pub proof fn lemma_rne_float_bits_bounds(x: nat, p: nat, bias: nat)
    requires
        x > 0,
    ensures
        rne_float_bits(x, p, bias) >= (bias + bit_len(x) - 1) * pow2(p),
        rne_float_bits(x, p, bias) <= (bias + bit_len(x)) * pow2(p),
{
    let k: nat = (bit_len(x) - 1) as nat;
    lemma_bit_len_bounds(x);
    lemma_pow2_pos(p);
    let sig: nat = if k <= p {
        x * pow2((p - k) as nat)
    } else {
        rne_div(x, (k - p) as nat)
    };
    assert(pow2(p) <= sig <= pow2(p) + pow2(p)) by {
        lemma_pow2_adds(p, 1);
        lemma2_to64();
        if k <= p {
            lemma_pow2_adds(k, (p - k) as nat);
            lemma_mul_inequality(pow2(k) as int, x as int, pow2((p - k) as nat) as int);
            lemma_pow2_adds(k + 1, (p - k) as nat);
            lemma_mul_strict_inequality(x as int, pow2(k + 1) as int, pow2((p - k) as nat) as int);
        } else {
            let d: nat = (k - p) as nat;
            lemma_pow2_pos(d);
            assert(pow2(p) <= x / pow2(d)) by {
                lemma_pow2_adds(p, d);
                lemma_div_is_ordered(pow2(k) as int, x as int, pow2(d) as int);
                lemma_div_multiples_vanish(pow2(p) as int, pow2(d) as int);
                lemma_mul_is_commutative(pow2(d) as int, pow2(p) as int);
            }
            assert(x / pow2(d) < pow2(p + 1)) by {
                lemma_pow2_adds(p + 1, d);
                lemma_multiply_divide_lt(x as int, pow2(d) as int, pow2(p + 1) as int);
                lemma_mul_is_commutative(pow2(d) as int, pow2(p + 1) as int);
            }
        }
    }
    assert((bias + k + 1) * pow2(p) == (bias + k) * pow2(p) + pow2(p)) by {
        lemma_mul_is_distributive_add_other_way(pow2(p) as int, (bias + k) as int, 1);
    }
}

/// For every integer below `pow2(128)` the binary32 encoding stays at or
/// below the infinity pattern, in particular below the sign bit.
pub proof fn lemma_u_to_f32_bits_in_range(x: nat)
    requires
        x < pow2(128),
    ensures
        crate::model::u_to_f32_bits(x) <= 255 * pow2(23),
        crate::model::u_to_f32_bits(x) < pow2(31),
{
    lemma2_to64();
    if x > 0 {
        lemma_rne_float_bits_bounds(x, 23, 127);
        lemma_bit_len_bounds(x);
        assert(bit_len(x) <= 128) by {
            if bit_len(x) > 128 {
                lemma_pow2_strictly_increases(128, (bit_len(x) - 1) as nat);
            }
        }
        assert((127 + bit_len(x)) * pow2(23) <= 255 * pow2(23)) by {
            lemma_mul_inequality((127 + bit_len(x)) as int, 255, pow2(23) as int);
        }
    }
}

/// For every integer below `pow2(128)` the binary64 encoding stays below
/// the infinity pattern, in particular below the sign bit.
pub proof fn lemma_u_to_f64_bits_in_range(x: nat)
    requires
        x < pow2(128),
    ensures
        crate::model::u_to_f64_bits(x) <= 1151 * pow2(52),
        crate::model::u_to_f64_bits(x) < pow2(63),
{
    lemma2_to64();
    lemma2_to64_rest();
    if x > 0 {
        lemma_rne_float_bits_bounds(x, 52, 1023);
        lemma_bit_len_bounds(x);
        assert(bit_len(x) <= 128) by {
            if bit_len(x) > 128 {
                lemma_pow2_strictly_increases(128, (bit_len(x) - 1) as nat);
            }
        }
        assert((1023 + bit_len(x)) * pow2(52) <= 1151 * pow2(52)) by {
            lemma_mul_inequality((1023 + bit_len(x)) as int, 1151, pow2(52) as int);
        }
    }
}

/// Powers of two do not decrease.
pub proof fn lemma_pow2_le(e1: nat, e2: nat)
    requires
        e1 <= e2,
    ensures
        pow2(e1) <= pow2(e2),
{
    if e1 < e2 {
        lemma_pow2_strictly_increases(e1, e2);
    }
}

/// Comparing a value against a multiple of a power of two is comparing its
/// high bits against the factor.
pub proof fn lemma_div_pow2_ordering(x: nat, c: nat, t: nat)
    ensures
        x < c * pow2(t) <==> x / pow2(t) < c,
{
    lemma_pow2_pos(t);
    if x < c * pow2(t) {
        lemma_mul_is_commutative(c as int, pow2(t) as int);
        lemma_multiply_divide_lt(x as int, pow2(t) as int, c as int);
    }
    if x / pow2(t) < c {
        lemma_fundamental_div_mod(x as int, pow2(t) as int);
        assert(x < (x / pow2(t) + 1) * pow2(t)) by {
            lemma_mul_is_distributive_add_other_way(
                pow2(t) as int,
                (x / pow2(t)) as int,
                1,
            );
            lemma_mul_is_commutative((x / pow2(t)) as int, pow2(t) as int);
        }
        assert((x / pow2(t) + 1) * pow2(t) <= c * pow2(t)) by {
            lemma_mul_inequality((x / pow2(t) + 1) as int, c as int, pow2(t) as int);
        }
    }
}

/// `z * pow2(a1) / pow2(b1)` is unchanged when both exponents move by the
/// same amount.
pub proof fn lemma_mul_div_pow2_balance(z: nat, a1: nat, b1: nat, a2: nat, b2: nat)
    requires
        a1 + b2 == a2 + b1,
    ensures
        z * pow2(a1) / pow2(b1) == z * pow2(a2) / pow2(b2),
{
    if a1 >= a2 {
        lemma_mul_div_pow2_shift(z, a2, b2, (a1 - a2) as nat);
    } else {
        lemma_mul_div_pow2_shift(z, a1, b1, (a2 - a1) as nat);
    }
}

/// The truncated magnitude of a finite pattern at or above one lies between
/// the powers of two its unbiased exponent names.
pub proof fn lemma_trunc_magnitude_bounds(a: nat, p: nat, bias: nat)
    requires
        a / pow2(p) >= bias,
    ensures
        pow2((a / pow2(p) - bias) as nat) <= crate::model::trunc_magnitude(a, p, bias),
        crate::model::trunc_magnitude(a, p, bias) < pow2((a / pow2(p) - bias + 1) as nat),
{
    let e: nat = a / pow2(p);
    let m: nat = a % pow2(p);
    let u: nat = (e - bias) as nat;
    let z: nat = pow2(p) + m;
    lemma_pow2_pos(p);
    lemma_pow2_pos(u);
    assert(pow2(p + u) <= z * pow2(u)) by {
        lemma_pow2_adds(p, u);
        lemma_mul_inequality(pow2(p) as int, z as int, pow2(u) as int);
    }
    assert(pow2(u) <= z * pow2(u) / pow2(p)) by {
        lemma_div_is_ordered(pow2(p + u) as int, (z * pow2(u)) as int, pow2(p) as int);
        lemma_pow2_adds(p, u);
        lemma_mul_is_commutative(pow2(p) as int, pow2(u) as int);
        lemma_div_multiples_vanish(pow2(u) as int, pow2(p) as int);
    }
    assert(z * pow2(u) < pow2(p + u + 1)) by {
        lemma_pow2_adds(p + 1, u);
        lemma_pow2_adds(p, 1);
        lemma2_to64();
        lemma_mul_strict_inequality(z as int, pow2(p + 1) as int, pow2(u) as int);
    }
    assert(z * pow2(u) / pow2(p) < pow2(u + 1)) by {
        lemma_pow2_adds(p, u + 1);
        lemma_mul_is_commutative(pow2(p) as int, pow2(u + 1) as int);
        lemma_multiply_divide_lt((z * pow2(u)) as int, pow2(p) as int, pow2(u + 1) as int);
    }
}

/// Packing the mantissa of a binary32 pattern for an 8-bit target: the
/// hidden one joined to the top mantissa bits is the significand shifted
/// down by 16.
pub proof fn lemma_pack_f32_w8(a: u32, m: u8)
    by (bit_vector)
    requires
        m == (1u8 << 7) | ((a >> 16u32) as u8),
    ensures
        m == (0x80_0000u32 + (a % 0x80_0000u32)) / 0x1_0000,
{
}

/// Packing the mantissa of a binary32 pattern for a 16-bit target.
pub proof fn lemma_pack_f32_w16(a: u32, m: u16)
    by (bit_vector)
    requires
        m == (1u16 << 15) | ((a >> 8u32) as u16),
    ensures
        m == (0x80_0000u32 + (a % 0x80_0000u32)) / 0x100,
{
}

/// Packing the mantissa of a binary32 pattern for a 32-bit target: the
/// significand scaled to the top of the word.
pub proof fn lemma_pack_f32_w32(a: u32, m: u32)
    by (bit_vector)
    requires
        m == (1u32 << 31) | (a << 8u32),
    ensures
        m == (0x80_0000u32 + (a % 0x80_0000u32)) * 0x100,
{
}

/// Packing the mantissa of a binary32 pattern for a 64-bit target.
pub proof fn lemma_pack_f32_w64(a: u32, m: u64)
    by (bit_vector)
    requires
        m == (1u64 << 63) | ((a as u64) << 40u64),
    ensures
        m == (0x80_0000u64 + ((a as u64) % 0x80_0000u64)) * 0x100_0000_0000,
{
}

/// Packing the mantissa of a binary32 pattern for a 128-bit target.
pub proof fn lemma_pack_f32_w128(a: u32, m: u128)
    by (bit_vector)
    requires
        m == (1u128 << 127) | ((a as u128) << 104u128),
    ensures
        m == ((1u128 << 23) + ((a as u128) % (1u128 << 23))) * (1u128 << 104),
{
}

/// Packing the mantissa of a binary64 pattern for an 8-bit target.
pub proof fn lemma_pack_f64_w8(a: u64, m: u8)
    by (bit_vector)
    requires
        m == (1u8 << 7) | ((a >> 45u64) as u8),
    ensures
        m == (0x10_0000_0000_0000u64 + (a % 0x10_0000_0000_0000u64)) / 0x2000_0000_0000,
{
}

/// Packing the mantissa of a binary64 pattern for a 16-bit target.
pub proof fn lemma_pack_f64_w16(a: u64, m: u16)
    by (bit_vector)
    requires
        m == (1u16 << 15) | ((a >> 37u64) as u16),
    ensures
        m == (0x10_0000_0000_0000u64 + (a % 0x10_0000_0000_0000u64)) / 0x20_0000_0000,
{
}

/// Packing the mantissa of a binary64 pattern for a 32-bit target.
pub proof fn lemma_pack_f64_w32(a: u64, m: u32)
    by (bit_vector)
    requires
        m == (1u32 << 31) | ((a >> 21u64) as u32),
    ensures
        m == (0x10_0000_0000_0000u64 + (a % 0x10_0000_0000_0000u64)) / 0x20_0000,
{
}

/// Packing the mantissa of a binary64 pattern for a 64-bit target.
pub proof fn lemma_pack_f64_w64(a: u64, m: u64)
    by (bit_vector)
    requires
        m == (1u64 << 63) | (a << 11u64),
    ensures
        m == (0x10_0000_0000_0000u64 + (a % 0x10_0000_0000_0000u64)) * 0x800,
{
}

/// Packing the mantissa of a binary64 pattern for a 128-bit target.
pub proof fn lemma_pack_f64_w128(a: u64, m: u128)
    by (bit_vector)
    requires
        m == (1u128 << 127) | ((a as u128) << 75u128),
    ensures
        m == ((1u128 << 52) + ((a as u128) % (1u128 << 52))) * (1u128 << 75),
{
}

/// Masking off the top bit leaves the value reduced modulo it.
pub proof fn lemma_abs_mask_u32(f: u32, a: u32)
    by (bit_vector)
    requires
        a == f & (!0u32 >> 1),
    ensures
        a == f % 0x8000_0000u32,
{
}

/// Masking off the top bit leaves the value reduced modulo it.
pub proof fn lemma_abs_mask_u64(f: u64, a: u64)
    by (bit_vector)
    requires
        a == f & (!0u64 >> 1),
    ensures
        a == f % 0x8000_0000_0000_0000u64,
{
}

/// Setting the sign bit of a word below it is the same as adding it.
pub proof fn lemma_or_high_bit_u32(v: u32)
    by (bit_vector)
    ensures
        v < 0x8000_0000u32 ==> (v | 0x8000_0000u32) == v + 0x8000_0000u32,
        (v | 0u32) == v,
{
}

/// Setting the sign bit of a word below it is the same as adding it.
pub proof fn lemma_or_high_bit_u64(v: u64)
    by (bit_vector)
    ensures
        v < 0x8000_0000_0000_0000u64 ==> (v | 0x8000_0000_0000_0000u64) == v
            + 0x8000_0000_0000_0000u64,
        (v | 0u64) == v,
{
}

/// The borrow mask of the branch-free rounding step never exceeds the
/// sticky word it is subtracted from.
pub proof fn lemma_round_mask_u32(a: u32, b: u32)
    by (bit_vector)
    ensures
        ((b >> 31u32) & !a) <= b,
{
}

/// The branch-free round-to-nearest-even step on a 32-bit word: `a` holds
/// the significant bits, the top bit of `b` is the round bit and its lower
/// bits the sticky bits.  `c` is the sticky word after the borrow; its top
/// bit says whether to round up, breaking ties so the result is even.
pub proof fn lemma_round_step_u32(a: u32, b: u32, c: u32)
    by (bit_vector)
    requires
        a < 0x0100_0000u32,
        ((b >> 31u32) & !a) <= b,
        c == b - ((b >> 31u32) & !a),
    ensures
        (c >> 31u32) <= 1,
        b < 0x8000_0000u32 ==> (c >> 31u32) == 0,
        b > 0x8000_0000u32 ==> (c >> 31u32) == 1,
        (b == 0x8000_0000u32 && a % 2 == 0) ==> (c >> 31u32) == 0,
        (b == 0x8000_0000u32 && a % 2 == 1) ==> (c >> 31u32) == 1,
{
}

/// The borrow mask of the branch-free rounding step never exceeds the
/// sticky word it is subtracted from.
pub proof fn lemma_round_mask_u64(a: u64, b: u64)
    by (bit_vector)
    ensures
        ((b >> 63u64) & !a) <= b,
{
}

/// The branch-free round-to-nearest-even step on a 64-bit word.
pub proof fn lemma_round_step_u64(a: u64, b: u64, c: u64)
    by (bit_vector)
    requires
        a < 0x0020_0000_0000_0000u64,
        ((b >> 63u64) & !a) <= b,
        c == b - ((b >> 63u64) & !a),
    ensures
        (c >> 63u64) <= 1,
        b < 0x8000_0000_0000_0000u64 ==> (c >> 63u64) == 0,
        b > 0x8000_0000_0000_0000u64 ==> (c >> 63u64) == 1,
        (b == 0x8000_0000_0000_0000u64 && a % 2 == 0) ==> (c >> 63u64) == 0,
        (b == 0x8000_0000_0000_0000u64 && a % 2 == 1) ==> (c >> 63u64) == 1,
{
}

} // verus!
