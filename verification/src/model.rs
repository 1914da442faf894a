//! The arithmetic model of the conversions.
//!
//! An IEEE-754 bit pattern with stored mantissa width `p` and exponent bias
//! `bias` is treated as an unbounded natural number.  Encoding an integer and
//! truncating a float back to an integer are defined here purely with powers
//! of two, division and remainder; the executable kernel in [`crate::soft`]
//! is proved to return exactly these values.

use vstd::prelude::*;
use vstd::arithmetic::power2::pow2;

verus! {

/// Number of binary digits of `x`: zero for zero, and otherwise the unique
/// `l` with `pow2(l - 1) <= x < pow2(l)`.
pub open spec fn bit_len(x: nat) -> nat
    decreases x,
{
    if x == 0 {
        0
    } else {
        bit_len(x / 2) + 1
    }
}

/// `x / pow2(d)` rounded to the nearest integer, with ties broken so the
/// result is even.
pub open spec fn rne_div(x: nat, d: nat) -> nat {
    let q = x / pow2(d);
    let r = x % pow2(d);
    if 2 * r < pow2(d) {
        q
    } else if 2 * r > pow2(d) {
        q + 1
    } else if q % 2 == 0 {
        q
    } else {
        q + 1
    }
}

/// The bit pattern of the binary float with stored mantissa width `p` and
/// exponent bias `bias` nearest to `x`, ties to even.
///
/// For nonzero `x` with leading one at position `k`, the significand (hidden
/// bit included) is `x` scaled to `p + 1` bits, rounded to nearest-even when
/// `x` has more than `p + 1` bits.  The significand lies in
/// `[pow2(p), pow2(p + 1)]`, and adding it into the exponent field
/// arithmetically lets a rounding carry bump the exponent, up to the
/// infinity encoding when `bias + k` is the largest exponent.
pub open spec fn rne_float_bits(x: nat, p: nat, bias: nat) -> nat {
    if x == 0 {
        0
    } else {
        let k = (bit_len(x) - 1) as nat;
        let sig = if k <= p {
            x * pow2((p - k) as nat)
        } else {
            rne_div(x, (k - p) as nat)
        };
        ((bias + k) * pow2(p) + sig - pow2(p)) as nat
    }
}

/// Bits of the binary32 value nearest to the unsigned integer `x`.
pub open spec fn u_to_f32_bits(x: nat) -> nat {
    rne_float_bits(x, 23, 127)
}

/// Bits of the binary64 value nearest to the unsigned integer `x`.
pub open spec fn u_to_f64_bits(x: nat) -> nat {
    rne_float_bits(x, 52, 1023)
}

/// Bits of the binary32 value nearest to the signed integer `i`: the sign
/// bit of the magnitude's encoding, which is never negative itself.
pub open spec fn i_to_f32_bits(i: int) -> nat {
    if i < 0 {
        (pow2(31) + u_to_f32_bits((-i) as nat)) as nat
    } else {
        u_to_f32_bits(i as nat)
    }
}

/// Bits of the binary64 value nearest to the signed integer `i`.
pub open spec fn i_to_f64_bits(i: int) -> nat {
    if i < 0 {
        (pow2(63) + u_to_f64_bits((-i) as nat)) as nat
    } else {
        u_to_f64_bits(i as nat)
    }
}

/// The integer part of the magnitude encoded by the absolute (sign removed)
/// bit pattern `a`, for mantissa width `p` and bias `bias`.
///
/// Values below one, subnormals included, truncate to zero.  The infinity
/// pattern falls under the general formula and yields `pow2(emax + 1)`,
/// larger than every integer a finite value can truncate to, so saturation
/// needs no separate case for it.
pub open spec fn trunc_magnitude(a: nat, p: nat, bias: nat) -> nat {
    let e = a / pow2(p);
    let m = a % pow2(p);
    if e < bias {
        0
    } else {
        (pow2(p) + m) * pow2((e - bias) as nat) / pow2(p)
    }
}

/// The bit pattern `f` of a binary32 value, with the sign removed.
pub open spec fn f32_abs(f: nat) -> nat {
    f % pow2(31)
}

/// Whether the binary32 bit pattern `f` has its sign bit set (`f < pow2(32)`).
pub open spec fn f32_is_neg(f: nat) -> bool {
    f >= pow2(31)
}

/// Whether the binary32 bit pattern `f` encodes a NaN of either sign.
pub open spec fn f32_is_nan(f: nat) -> bool {
    f32_abs(f) > 255 * pow2(23)
}

/// The integer part of the magnitude of the binary32 value with bits `f`.
pub open spec fn f32_mag(f: nat) -> nat {
    trunc_magnitude(f32_abs(f), 23, 127)
}

/// The bit pattern `f` of a binary64 value, with the sign removed.
pub open spec fn f64_abs(f: nat) -> nat {
    f % pow2(63)
}

/// Whether the binary64 bit pattern `f` has its sign bit set (`f < pow2(64)`).
pub open spec fn f64_is_neg(f: nat) -> bool {
    f >= pow2(63)
}

/// Whether the binary64 bit pattern `f` encodes a NaN of either sign.
pub open spec fn f64_is_nan(f: nat) -> bool {
    f64_abs(f) > 2047 * pow2(52)
}

/// The integer part of the magnitude of the binary64 value with bits `f`.
pub open spec fn f64_mag(f: nat) -> nat {
    trunc_magnitude(f64_abs(f), 52, 1023)
}

/// The `w`-bit unsigned integer a binary32 value with bits `f` converts to:
/// truncation toward zero, saturated to `[0, pow2(w) - 1]`, NaN to zero.
pub open spec fn f32_to_uint(f: nat, w: nat) -> nat {
    if f32_is_nan(f) || f32_is_neg(f) {
        0
    } else if f32_mag(f) >= pow2(w) {
        (pow2(w) - 1) as nat
    } else {
        f32_mag(f)
    }
}

/// The `w`-bit signed integer a binary32 value with bits `f` converts to:
/// truncation toward zero, saturated to `[-pow2(w - 1), pow2(w - 1) - 1]`,
/// NaN to zero.
pub open spec fn f32_to_sint(f: nat, w: nat) -> int {
    let bound = pow2((w - 1) as nat) as int;
    let mag = f32_mag(f) as int;
    if f32_is_nan(f) {
        0
    } else if f32_is_neg(f) {
        if mag >= bound {
            -bound
        } else {
            -mag
        }
    } else {
        if mag >= bound {
            bound - 1
        } else {
            mag
        }
    }
}

/// The `w`-bit unsigned integer a binary64 value with bits `f` converts to.
pub open spec fn f64_to_uint(f: nat, w: nat) -> nat {
    if f64_is_nan(f) || f64_is_neg(f) {
        0
    } else if f64_mag(f) >= pow2(w) {
        (pow2(w) - 1) as nat
    } else {
        f64_mag(f)
    }
}

/// The `w`-bit signed integer a binary64 value with bits `f` converts to.
pub open spec fn f64_to_sint(f: nat, w: nat) -> int {
    let bound = pow2((w - 1) as nat) as int;
    let mag = f64_mag(f) as int;
    if f64_is_nan(f) {
        0
    } else if f64_is_neg(f) {
        if mag >= bound {
            -bound
        } else {
            -mag
        }
    } else {
        if mag >= bound {
            bound - 1
        } else {
            mag
        }
    }
}

} // verus!
