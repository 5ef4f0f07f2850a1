//! Properties of the encoding and of the operations.
use crate::model::{
    add_spec, div_spec, exp_of, frac_of, is_finite, is_nan, is_zero, mul_spec, pack, sign_of,
    POS_INF, round_half_even, sig_of,
};
use vstd::arithmetic::div_mod::{lemma_fundamental_div_mod, lemma_mod_pos_bound};
use vstd::arithmetic::mul::lemma_mul_is_commutative;
use vstd::prelude::*;

verus! {

/// Splitting an encoding into sign, biased exponent and fraction and packing
/// the three fields again gives back the same bits, for every 32-bit pattern,
/// NaN payloads included.
pub proof fn lemma_fields_round_trip(a: u32)
    ensures
        pack(sign_of(a), exp_of(a), frac_of(a)) == a,
        exp_of(a) < 256,
        frac_of(a) < 0x80_0000,
{
}

/// Rounding picks an integer nearest to `n / d`, and on a tie the even one.
pub proof fn lemma_round_half_even_is_nearest(n: nat, d: nat)
    requires
        d > 0,
    ensures
        2 * (round_half_even(n, d) * d - n) <= d,
        2 * (n - round_half_even(n, d) * d) <= d,
        2 * (round_half_even(n, d) * d - n) == d || 2 * (n - round_half_even(n, d) * d) == d
            ==> round_half_even(n, d) % 2 == 0,
{
    lemma_fundamental_div_mod(n as int, d as int);
    lemma_mod_pos_bound(n as int, d as int);
    let q = n / d;
    let r = n % d;
    assert((q + 1) * d == q * d + d) by (nonlinear_arith);
    assert(q * d == d * q) by (nonlinear_arith);
}

/// A positive finite value divided by positive zero is positive infinity.
pub proof fn lemma_div_by_positive_zero(a: u32)
    requires
        is_finite(a),
        !sign_of(a),
        !is_zero(a),
    ensures
        div_spec(a, 0) == POS_INF,
{
}

/// Zero divided by zero is NaN.
pub proof fn lemma_zero_div_zero()
    ensures
        is_nan(div_spec(0, 0)),
{
}

/// Addition and multiplication of finite values commute, down to the bits.
pub proof fn lemma_commutative(a: u32, b: u32)
    requires
        is_finite(a),
        is_finite(b),
    ensures
        add_spec(a, b) == add_spec(b, a),
        mul_spec(a, b) == mul_spec(b, a),
{
    lemma_mul_is_commutative(sig_of(a) as int, sig_of(b) as int);
}

} // verus!
