//! The mathematical model of `binary32` encodings and of the four operations.
//!
//! A finite encoding stands for `sig * 2^scale` units of `2^-149`, the
//! smallest positive subnormal. Results are exact rational values rounded to
//! the nearest representable value, ties to even, with overflow to infinity.
use vstd::arithmetic::power2::pow2;
use vstd::prelude::*;

verus! {

/// The sign bit.
pub const SIGN_BIT: u32 = 0x8000_0000;

/// Positive infinity.
pub const POS_INF: u32 = 0x7F80_0000;

/// The quiet NaN produced by invalid operations (`0/0`, `inf - inf`, `0 * inf`).
pub const DEFAULT_NAN: u32 = 0x7FC0_0000;

/// One unit of the biased exponent field.
pub const EXP_ONE: u32 = 0x0080_0000;

/// The quiet bit of a NaN's payload.
pub const QUIET_BIT: u32 = 0x0040_0000;

pub open spec fn sign_of(a: u32) -> bool {
    a >= SIGN_BIT
}

/// The biased exponent field, bits 23 to 30.
pub open spec fn exp_of(a: u32) -> nat {
    ((a % SIGN_BIT) / EXP_ONE) as nat
}

/// The fraction field, bits 0 to 22.
pub open spec fn frac_of(a: u32) -> nat {
    (a % EXP_ONE) as nat
}

/// The encoding with the given sign, biased exponent and fraction.
pub open spec fn pack(neg: bool, e: nat, f: nat) -> int {
    (if neg { SIGN_BIT as int } else { 0 }) + e * EXP_ONE + f
}

pub open spec fn is_nan(a: u32) -> bool {
    exp_of(a) == 255 && frac_of(a) != 0
}

pub open spec fn is_inf(a: u32) -> bool {
    exp_of(a) == 255 && frac_of(a) == 0
}

pub open spec fn is_finite(a: u32) -> bool {
    exp_of(a) < 255
}

/// Positive or negative zero.
pub open spec fn is_zero(a: u32) -> bool {
    a % SIGN_BIT == 0
}

/// The integer significand of a finite encoding, hidden bit included.
pub open spec fn sig_of(a: u32) -> nat {
    if exp_of(a) == 0 {
        frac_of(a)
    } else {
        (frac_of(a) + EXP_ONE) as nat
    }
}

/// The power of two that scales the significand, in units of `2^-149`.
pub open spec fn scale_of(a: u32) -> nat {
    if exp_of(a) == 0 {
        0
    } else {
        (exp_of(a) - 1) as nat
    }
}

/// The magnitude of a finite encoding, in units of `2^-149`.
pub open spec fn units_of(a: u32) -> nat {
    sig_of(a) * pow2(scale_of(a))
}

/// The signed value of a finite encoding, in units of `2^-149`.
pub open spec fn signed_units(a: u32) -> int {
    if sign_of(a) {
        -units_of(a)
    } else {
        units_of(a) as int
    }
}

/// A NaN with its quiet bit set; the payload is otherwise kept.
pub open spec fn quieted(a: u32) -> u32 {
    if frac_of(a) >= QUIET_BIT {
        a
    } else {
        (a + QUIET_BIT) as u32
    }
}

/// The encoding with the sign bit flipped.
pub open spec fn negated(a: u32) -> u32 {
    if sign_of(a) {
        (a - SIGN_BIT) as u32
    } else {
        (a + SIGN_BIT) as u32
    }
}

/// A magnitude encoding (at most `POS_INF`) with the given sign.
pub open spec fn with_sign(neg: bool, mag: nat) -> u32 {
    (if neg { mag + SIGN_BIT as int } else { mag as int }) as u32
}

/// `n / d` rounded to the nearest integer, ties to even.
pub open spec fn round_half_even(n: nat, d: nat) -> nat {
    let q = n / d;
    let r = n % d;
    if 2 * r > d || (2 * r == d && q % 2 == 1) {
        q + 1
    } else {
        q
    }
}

/// The encoding of the magnitude `n / d` units, rounded, before overflow.
///
/// Below `2^24` units the spacing of representable values is one unit. Each
/// binade above doubles it and adds one to the exponent field; a rounding
/// carry into the next binade lands on its encoding by itself.
pub open spec fn magnitude_bits(n: nat, d: nat) -> nat
    decreases (if n >= d { n - d } else { 0 }),
{
    if d == 0 {
        0
    } else if n < d * 0x100_0000 {
        round_half_even(n, d)
    } else {
        (EXP_ONE + magnitude_bits(n, 2 * d)) as nat
    }
}

/// The encoding of the magnitude `(p / q) * 2^k` units, rounded to nearest
/// even, overflowing to infinity.
pub open spec fn round_frac(p: nat, q: nat, k: int) -> nat {
    let m = if k >= 0 {
        magnitude_bits(p * pow2(k as nat), q)
    } else {
        magnitude_bits(p, q * pow2((-k) as nat))
    };
    if m >= POS_INF {
        POS_INF as nat
    } else {
        m
    }
}

/// The encoding of `a + b`.
///
/// A NaN operand comes back quieted, the first one where both are NaN. An
/// exact zero sum is positive unless both operands are negative.
pub open spec fn add_spec(a: u32, b: u32) -> u32 {
    if is_nan(a) {
        quieted(a)
    } else if is_nan(b) {
        quieted(b)
    } else if is_inf(a) {
        if is_inf(b) && sign_of(a) != sign_of(b) {
            DEFAULT_NAN
        } else {
            a
        }
    } else if is_inf(b) {
        b
    } else {
        let s = signed_units(a) + signed_units(b);
        if s == 0 {
            if sign_of(a) && sign_of(b) {
                SIGN_BIT
            } else {
                0
            }
        } else {
            with_sign(s < 0, round_frac((if s < 0 { -s } else { s }) as nat, 1, 0))
        }
    }
}

/// The encoding of `a - b`: the sum with `b` negated, but a NaN `b` comes
/// back quieted with its own sign.
pub open spec fn sub_spec(a: u32, b: u32) -> u32 {
    if is_nan(a) {
        quieted(a)
    } else if is_nan(b) {
        quieted(b)
    } else {
        add_spec(a, negated(b))
    }
}

/// The encoding of `a * b`.
pub open spec fn mul_spec(a: u32, b: u32) -> u32 {
    let neg = sign_of(a) != sign_of(b);
    if is_nan(a) {
        quieted(a)
    } else if is_nan(b) {
        quieted(b)
    } else if is_inf(a) || is_inf(b) {
        if is_zero(a) || is_zero(b) {
            DEFAULT_NAN
        } else {
            with_sign(neg, POS_INF as nat)
        }
    } else {
        with_sign(neg, round_frac(sig_of(a) * sig_of(b), 1, scale_of(a) + scale_of(b) - 149))
    }
}

/// The encoding of `a / b`.
pub open spec fn div_spec(a: u32, b: u32) -> u32 {
    let neg = sign_of(a) != sign_of(b);
    if is_nan(a) {
        quieted(a)
    } else if is_nan(b) {
        quieted(b)
    } else if is_inf(a) {
        if is_inf(b) {
            DEFAULT_NAN
        } else {
            with_sign(neg, POS_INF as nat)
        }
    } else if is_inf(b) {
        with_sign(neg, 0)
    } else if is_zero(b) {
        if is_zero(a) {
            DEFAULT_NAN
        } else {
            with_sign(neg, POS_INF as nat)
        }
    } else {
        with_sign(neg, round_frac(sig_of(a), sig_of(b), scale_of(a) - scale_of(b) + 149))
    }
}

} // verus!
