//! Rounding an exact magnitude, held as a truncated quotient and a sticky
//! flag, to its `binary32` encoding.
use crate::model::{magnitude_bits, round_half_even, EXP_ONE, POS_INF};
use vstd::arithmetic::div_mod::*;
use vstd::arithmetic::mul::*;
use vstd::arithmetic::power2::*;
use vstd::prelude::*;

verus! {

/// `magnitude_bits` clamped to infinity.
pub open spec fn clamped_bits(n: nat, d: nat) -> nat {
    if magnitude_bits(n, d) >= POS_INF {
        POS_INF as nat
    } else {
        magnitude_bits(n, d)
    }
}

/// No binade below `2^j` is skipped: `n / d` reaches `2^(23 + j)` units.
pub open spec fn binade_reached(n: nat, d: nat, j: nat) -> bool {
    j == 0 || n >= d * pow2((j - 1) as nat) * 0x100_0000
}

proof fn lemma_scaled_pos(d: nat, j: nat)
    requires
        d > 0,
    ensures
        d * pow2(j) > 0,
{
    lemma_pow2_pos(j);
    lemma_mul_strictly_positive(d as int, pow2(j) as int);
}

proof fn lemma_magnitude_shift(n: nat, d: nat, j: nat)
    requires
        d > 0,
        binade_reached(n, d, j),
    ensures
        magnitude_bits(n, d) == j * EXP_ONE + magnitude_bits(n, d * pow2(j)),
    decreases j,
{
    if j == 0 {
        lemma2_to64();
    } else {
        lemma_pow2_pos((j - 1) as nat);
        lemma_mul_inequality(1, pow2((j - 1) as nat) as int, d as int);
        lemma_mul_inequality(d as int, (d * pow2((j - 1) as nat)) as int, 0x100_0000);
        assert(n >= d * 0x100_0000);
        let jm = (j - 1) as nat;
        if jm > 0 {
            lemma_pow2_adds(1, (jm - 1) as nat);
            lemma2_to64();
            assert(pow2(jm) == 2 * pow2((jm - 1) as nat));
            assert(d * pow2(jm) == (2 * d) * pow2((jm - 1) as nat)) by (nonlinear_arith)
                requires pow2(jm) == 2 * pow2((jm - 1) as nat);
        }
        lemma_magnitude_shift(n, 2 * d, jm);
        lemma_pow2_adds(1, jm);
        lemma2_to64();
        assert((2 * d) * pow2(jm) == d * pow2(j)) by (nonlinear_arith)
            requires pow2(j) == 2 * pow2(jm);
    }
}

proof fn lemma_magnitude_at_least(n: nat, d: nat)
    requires
        d > 0,
        n >= d * EXP_ONE,
    ensures
        magnitude_bits(n, d) >= EXP_ONE,
    decreases (if n >= d { n - d } else { 0 }),
{
    if n < d * 0x100_0000 {
        lemma_div_is_ordered((d * EXP_ONE) as int, n as int, d as int);
        lemma_div_multiples_vanish(EXP_ONE as int, d as int);
        assert(d * EXP_ONE == EXP_ONE * d) by (nonlinear_arith);
    }
}

/// Rounding to nearest even read off a quotient with one guard bit and a
/// sticky flag.
proof fn lemma_round_from_guard(n: nat, dd: nat)
    requires
        dd > 0,
    ensures
        ({
            let t = (2 * n) / dd;
            let st = (2 * n) % dd != 0;
            round_half_even(n, dd) == t / 2 + (if t % 2 == 1 && (st || (t / 2) % 2 == 1) {
                1nat
            } else {
                0nat
            })
        }),
{
    let x = 2 * n;
    let t = x / dd;
    let r2 = x % dd;
    lemma_fundamental_div_mod(x as int, dd as int);
    lemma_mod_pos_bound(x as int, dd as int);
    let q = t / 2;
    let b = t % 2;
    assert(t == 2 * q + b);
    let r = n - q * dd;
    if b == 0 {
        assert(x == 2 * q * dd + r2) by (nonlinear_arith)
            requires x == t * dd + r2, t == 2 * q;
        assert(2 * r == r2) by (nonlinear_arith)
            requires x == 2 * q * dd + r2, x == 2 * n, r == n - q * dd;
    } else {
        assert(x == 2 * q * dd + dd + r2) by (nonlinear_arith)
            requires x == t * dd + r2, t == 2 * q + 1;
        assert(2 * r == dd + r2) by (nonlinear_arith)
            requires x == 2 * q * dd + dd + r2, x == 2 * n, r == n - q * dd;
    }
    assert(n == q * dd + r);
    lemma_fundamental_div_mod_converse(n as int, dd as int, q as int, r);
}

/// The encoding of the magnitude `n / d` units, from `t = floor(2n / (d 2^j))`
/// and the flag `st` that says whether that division was inexact.
pub(crate) fn round_core(
    t: u128,
    st: bool,
    j: u32,
    Ghost(n): Ghost<nat>,
    Ghost(d): Ghost<nat>,
) -> (r: u32)
    requires
        d > 0,
        j <= 1000,
        t == (2 * n) / (d * pow2(j as nat)),
        st == ((2 * n) % (d * pow2(j as nat)) != 0),
        st ==> binade_reached(n, d, j as nat),
    ensures
        r == clamped_bits(n, d),
{
    let mut t = t;
    let mut j = j;
    let mut st = st;
    proof {
        lemma_scaled_pos(d, j as nat);
    }
    if !st {
        proof {
            lemma_fundamental_div_mod((2 * n) as int, (d * pow2(j as nat)) as int);
        }
        while t < 0x100_0000 && j > 0
            invariant
                d > 0,
                j <= 1000,
                2 * n == t * (d * pow2(j as nat)),
            decreases j,
        {
            proof {
                lemma_pow2_adds(1, (j - 1) as nat);
                lemma2_to64();
                assert(t * (d * pow2(j as nat)) == (2 * t) * (d * pow2((j - 1) as nat)))
                    by (nonlinear_arith)
                    requires pow2(j as nat) == 2 * pow2((j - 1) as nat);
            }
            t = t * 2;
            j = j - 1;
        }
        proof {
            lemma_scaled_pos(d, j as nat);
            let dd = d * pow2(j as nat);
            lemma_fundamental_div_mod_converse((2 * n) as int, dd as int, t as int, 0);
            if j > 0 {
                lemma_pow2_adds(1, (j - 1) as nat);
                lemma2_to64();
                assert(n >= d * pow2((j - 1) as nat) * 0x100_0000) by (nonlinear_arith)
                    requires
                        2 * n == t * (d * pow2(j as nat)),
                        t >= 0x100_0000,
                        pow2(j as nat) == 2 * pow2((j - 1) as nat),
                        d > 0,
                ;
            }
        }
    }
    while t >= 0x200_0000 && j < 300
        invariant
            d > 0,
            j <= 1000,
            t == (2 * n) / (d * pow2(j as nat)),
            st == ((2 * n) % (d * pow2(j as nat)) != 0),
            binade_reached(n, d, j as nat),
        decreases t,
    {
        proof {
            let dd = d * pow2(j as nat);
            lemma_scaled_pos(d, j as nat);
            lemma_fundamental_div_mod((2 * n) as int, dd as int);
            lemma_mod_pos_bound((2 * n) as int, dd as int);
            lemma_div_denominator((2 * n) as int, dd as int, 2);
            lemma_mod_breakdown((2 * n) as int, dd as int, 2);
            lemma_pow2_adds(j as nat, 1);
            lemma2_to64();
            assert(d * pow2((j + 1) as nat) == dd * 2) by (nonlinear_arith)
                requires pow2((j + 1) as nat) == pow2(j as nat) * 2, dd == d * pow2(j as nat);
            assert(n >= dd * 0x100_0000) by (nonlinear_arith)
                requires 2 * n == t * dd + (2 * n) % dd, t >= 0x200_0000, (2 * n) % dd >= 0, dd > 0;
            assert(dd * ((t as int) % 2) >= 0) by (nonlinear_arith)
                requires dd > 0;
            let x = (2 * n) as int;
            let dd = dd as int;
            assert(x % (dd * 2) == dd * ((x / dd) % 2) + x % dd);
            if t % 2 == 1 {
                assert(dd * ((t as int) % 2) == dd);
                assert(x % (dd * 2) != 0);
            } else {
                assert((t as int) % 2 == 0);
                assert(dd * ((t as int) % 2) == 0) by (nonlinear_arith)
                    requires (t as int) % 2 == 0;
                assert(x % (dd * 2) == x % dd);
            }
        }
        st = st || t % 2 == 1;
        t = t / 2;
        j = j + 1;
    }
    proof {
        lemma_magnitude_shift(n, d, j as nat);
        lemma_scaled_pos(d, j as nat);
    }
    if j >= 254 {
        proof {
            let dd = d * pow2(j as nat);
            lemma_pow2_adds(1, (j - 1) as nat);
            lemma2_to64();
            assert(n >= dd * EXP_ONE) by (nonlinear_arith)
                requires
                    n >= d * pow2((j - 1) as nat) * 0x100_0000,
                    pow2(j as nat) == 2 * pow2((j - 1) as nat),
                    dd == d * pow2(j as nat),
            ;
            lemma_magnitude_at_least(n, dd);
        }
        return POS_INF;
    }
    proof {
        let dd = d * pow2(j as nat);
        lemma_fundamental_div_mod((2 * n) as int, dd as int);
        lemma_mod_pos_bound((2 * n) as int, dd as int);
        assert(n < dd * 0x100_0000) by (nonlinear_arith)
            requires 2 * n == t * dd + (2 * n) % dd, t < 0x200_0000, (2 * n) % dd < dd, dd > 0;
        lemma_round_from_guard(n, dd);
    }
    let q: u32 = (t / 2) as u32;
    let inc: u32 = if t % 2 == 1 && (st || q % 2 == 1) { 1 } else { 0 };
    let bits: u32 = j * EXP_ONE + q + inc;
    if bits >= POS_INF {
        POS_INF
    } else {
        bits
    }
}

} // verus!
