//! The four operations on encodings, computed with integers only.
use crate::model::{
    add_spec, div_spec, exp_of, is_inf, is_nan, is_zero, mul_spec, negated, quieted,
    round_frac, scale_of, sig_of, sign_of, signed_units, sub_spec, units_of, with_sign,
    DEFAULT_NAN, EXP_ONE, POS_INF, QUIET_BIT, SIGN_BIT,
};
use crate::round::{binade_reached, clamped_bits, round_core};
use vstd::arithmetic::div_mod::{
    lemma_fundamental_div_mod, lemma_fundamental_div_mod_converse, lemma_mod_pos_bound,
};
use vstd::arithmetic::mul::lemma_mul_strictly_positive;
use vstd::arithmetic::power2::{
    lemma2_to64, lemma_pow2_adds, lemma_pow2_pos, lemma_pow2_strictly_increases, pow2,
};
use vstd::prelude::*;

verus! {

/// `2^s` as an integer.
fn pow2_u128(s: u32) -> (r: u128)
    requires
        s <= 126,
    ensures
        r == pow2(s as nat),
{
    let mut r: u128 = 1;
    let mut i: u32 = 0;
    proof {
        lemma2_to64();
        lemma_pow2_adds(32, 30);
        lemma_pow2_adds(64, 62);
    }
    while i < s
        invariant
            i <= s <= 126,
            r == pow2(i as nat),
            pow2(126) == pow2(64) * pow2(62),
            pow2(64) == 0x1_0000_0000_0000_0000,
            pow2(62) == 0x4000_0000_0000_0000,
        decreases s - i,
    {
        proof {
            lemma_pow2_adds(i as nat, 1);
            lemma2_to64();
            if i + 1 < 126 {
                lemma_pow2_strictly_increases((i + 1) as nat, 126);
            }
        }
        r = r * 2;
        i = i + 1;
    }
    r
}

/// The sign bit of an encoding.
fn sign(a: u32) -> (r: bool)
    ensures
        r == sign_of(a),
{
    a >= SIGN_BIT
}

/// The integer significand of an encoding, hidden bit included.
fn significand(a: u32) -> (r: u32)
    ensures
        r == sig_of(a),
        r < 0x100_0000,
        exp_of(a) > 0 ==> r >= EXP_ONE,
{
    if (a % SIGN_BIT) / EXP_ONE == 0 {
        a % EXP_ONE
    } else {
        a % EXP_ONE + EXP_ONE
    }
}

/// The power of two that scales the significand.
fn scale(a: u32) -> (r: u32)
    ensures
        r == scale_of(a),
        r <= 254,
{
    let e = (a % SIGN_BIT) / EXP_ONE;
    if e == 0 {
        0
    } else {
        e - 1
    }
}

fn nan(a: u32) -> (r: bool)
    ensures
        r == is_nan(a),
{
    (a % SIGN_BIT) / EXP_ONE == 255 && a % EXP_ONE != 0
}

fn inf(a: u32) -> (r: bool)
    ensures
        r == is_inf(a),
{
    (a % SIGN_BIT) / EXP_ONE == 255 && a % EXP_ONE == 0
}

fn zero(a: u32) -> (r: bool)
    ensures
        r == is_zero(a),
{
    a % SIGN_BIT == 0
}

fn quiet(a: u32) -> (r: u32)
    requires
        is_nan(a),
    ensures
        r == quieted(a),
{
    if a % EXP_ONE >= QUIET_BIT {
        a
    } else {
        a + QUIET_BIT
    }
}

fn negate(a: u32) -> (r: u32)
    ensures
        r == negated(a),
{
    if a >= SIGN_BIT {
        a - SIGN_BIT
    } else {
        a + SIGN_BIT
    }
}

/// Applies a sign to the encoding of a magnitude.
fn signed(neg: bool, mag: u32) -> (r: u32)
    requires
        mag <= POS_INF,
    ensures
        r == with_sign(neg, mag as nat),
{
    if neg {
        mag + SIGN_BIT
    } else {
        mag
    }
}

/// The encoding of the magnitude `p * 2^k` units.
fn round_exact(p: u128, k: u32) -> (r: u32)
    requires
        k <= 900,
    ensures
        r == clamped_bits(p as nat * pow2(k as nat), 1),
{
    proof {
        let n = p as nat * pow2(k as nat);
        lemma_pow2_adds(k as nat, 1);
        lemma2_to64();
        lemma_pow2_pos((k + 1) as nat);
        assert(2 * n == p * (1 * pow2((k + 1) as nat))) by (nonlinear_arith)
            requires n == p * pow2(k as nat), pow2((k + 1) as nat) == pow2(k as nat) * 2;
        lemma_fundamental_div_mod_converse(
            (2 * n) as int,
            (1 * pow2((k + 1) as nat)) as int,
            p as int,
            0,
        );
    }
    round_core(p, false, k + 1, Ghost(p as nat * pow2(k as nat)), Ghost(1nat))
}

/// The encoding of the magnitude `p / 2^s` units.
fn round_down(p: u64, s: u32) -> (r: u32)
    requires
        s <= 900,
    ensures
        r == clamped_bits(p as nat, pow2(s as nat)),
{
    let ghost d = pow2(s as nat);
    proof {
        lemma_pow2_pos(s as nat);
        lemma2_to64();
        assert(d * pow2(0) == d);
    }
    let x: u128 = 2 * (p as u128);
    if s >= 66 {
        proof {
            lemma_pow2_adds(64, 1);
            if s > 65 {
                lemma_pow2_strictly_increases(65, s as nat);
            }
            lemma_fundamental_div_mod_converse(x as int, d as int, 0, x as int);
        }
        round_core(0, p != 0, 0, Ghost(p as nat), Ghost(d))
    } else {
        let m = pow2_u128(s);
        round_core(x / m, x % m != 0, 0, Ghost(p as nat), Ghost(d))
    }
}

/// The magnitude encoding of `(p / q) * 2^k` units, in the form the model
/// states it.
proof fn lemma_clamped_is_round_frac(p: nat, q: nat, k: int)
    requires
        q > 0,
    ensures
        round_frac(p, q, k) == (if k >= 0 {
            clamped_bits(p * pow2(k as nat), q)
        } else {
            clamped_bits(p, q * pow2((-k) as nat))
        }),
{
}

/// Scaling a division by a common positive factor keeps its quotient and
/// scales its remainder.
proof fn lemma_div_scaled(x: nat, y: nat, c: nat)
    requires
        y > 0,
        c > 0,
    ensures
        (c * x) / (c * y) == x / y,
        (c * x) % (c * y) == c * (x % y),
{
    lemma_fundamental_div_mod(x as int, y as int);
    lemma_mod_pos_bound(x as int, y as int);
    let q = x / y;
    let r = x % y;
    assert(c * x == q * (c * y) + c * r && 0 <= c * r < c * y) by (nonlinear_arith)
        requires x == y * q + r, 0 <= r < y, c > 0;
    lemma_fundamental_div_mod_converse((c * x) as int, (c * y) as int, q as int, (c * r) as int);
}

/// The IEEE-754 product of two `binary32` encodings.
pub fn float_mul(a: u32, b: u32) -> (r: u32)
    ensures
        r == mul_spec(a, b),
{
    if nan(a) {
        return quiet(a);
    }
    if nan(b) {
        return quiet(b);
    }
    let neg = sign(a) != sign(b);
    if inf(a) || inf(b) {
        if zero(a) || zero(b) {
            return DEFAULT_NAN;
        }
        return signed(neg, POS_INF);
    }
    let sa = significand(a) as u64;
    let sb = significand(b) as u64;
    assert(sa * sb < 0x1_0000_0000_0000) by (nonlinear_arith)
        requires sa < 0x100_0000, sb < 0x100_0000;
    let p: u64 = sa * sb;
    let k: u32 = scale(a) + scale(b);
    let mag = if k >= 149 {
        let r = round_exact(p as u128, k - 149);
        proof {
            lemma_clamped_is_round_frac(p as nat, 1, k - 149);
        }
        r
    } else {
        let r = round_down(p, 149 - k);
        proof {
            lemma_clamped_is_round_frac(p as nat, 1, k - 149);
            assert(1 * pow2((149 - k) as nat) == pow2((149 - k) as nat));
        }
        r
    };
    signed(neg, mag)
}

/// The IEEE-754 quotient of two `binary32` encodings.
pub fn float_div(a: u32, b: u32) -> (r: u32)
    ensures
        r == div_spec(a, b),
{
    if nan(a) {
        return quiet(a);
    }
    if nan(b) {
        return quiet(b);
    }
    let neg = sign(a) != sign(b);
    if inf(a) {
        if inf(b) {
            return DEFAULT_NAN;
        }
        return signed(neg, POS_INF);
    }
    if inf(b) {
        return signed(neg, 0);
    }
    if zero(b) {
        if zero(a) {
            return DEFAULT_NAN;
        }
        return signed(neg, POS_INF);
    }
    let sa = significand(a);
    let sb = significand(b);
    assert(sb > 0);
    let ea = scale(a);
    let eb = scale(b);
    let ghost k: int = ea - eb + 149;
    let mag = if ea + 149 >= eb {
        let kk: u32 = ea + 149 - eb;
        let ghost n: nat = sa as nat * pow2(kk as nat);
        if kk <= 60 {
            let m = pow2_u128(kk);
            proof {
                lemma_pow2_pos(kk as nat);
                lemma2_to64();
                lemma_pow2_strictly_increases(kk as nat, 64);
                assert(2 * (sa as u128) * m < 0x1_0000_0000_0000_0000_0000_0000) by (nonlinear_arith)
                    requires sa < 0x100_0000, m < 0x1_0000_0000_0000_0000;
                assert(sb as nat * pow2(0) == sb);
                assert(2 * (sa as nat) * m == 2 * n) by (nonlinear_arith)
                    requires n == sa as nat * pow2(kk as nat), m == pow2(kk as nat);
            }
            let x: u128 = 2 * (sa as u128) * m;
            let r = round_core(x / (sb as u128), x % (sb as u128) != 0, 0, Ghost(n), Ghost(sb as nat));
            proof {
                lemma_clamped_is_round_frac(sa as nat, sb as nat, k);
            }
            r
        } else {
            let j: u32 = kk - 60;
            let m = pow2_u128(60);
            proof {
                lemma2_to64();
                lemma_pow2_adds(32, 28);
                lemma_pow2_adds(60, j as nat);
                lemma_pow2_pos(j as nat);
                let c = pow2(j as nat);
                let x: nat = 2 * sa as nat * pow2(60);
                assert(2 * n == c * x) by (nonlinear_arith)
                    requires n == sa * pow2(kk as nat), pow2(kk as nat) == pow2(60) * c, x == 2 * sa * pow2(60);
                assert(sb * c == c * sb) by (nonlinear_arith);
                lemma_div_scaled(x as nat, sb as nat, c);
                if sa > 0 {
                    lemma_pow2_adds(1, (j - 1) as nat);
                    lemma_pow2_pos((j - 1) as nat);
                    let c1 = pow2((j - 1) as nat);
                    assert(n >= sb * c1 * 0x100_0000) by (nonlinear_arith)
                        requires
                            n == sa * pow2(kk as nat),
                            kk == j + 60,
                            pow2(kk as nat) == pow2(60) * c,
                            c == pow2(1) * c1,
                            pow2(1) == 2,
                            pow2(60) == 0x1000_0000_0000_0000,
                            sa >= 1,
                            sb < 0x100_0000,
                            c1 > 0,
                    ;
                    assert(binade_reached(n, sb as nat, j as nat));
                } else {
                    assert(x == 0) by (nonlinear_arith)
                        requires sa == 0, x == 2 * sa as nat * pow2(60);
                    lemma_fundamental_div_mod_converse(0, sb as int, 0, 0);
                    assert(x % (sb as nat) == 0);
                }
                let rem = x as nat % sb as nat;
                assert(c * rem != 0 <==> rem != 0) by (nonlinear_arith)
                    requires c > 0;
            }
            assert(2 * (sa as u128) * m < 0x1_0000_0000_0000_0000_0000_0000) by (nonlinear_arith)
                requires sa < 0x100_0000, m == 0x1000_0000_0000_0000;
            let x: u128 = 2 * (sa as u128) * m;
            let r = round_core(x / (sb as u128), x % (sb as u128) != 0, j, Ghost(n), Ghost(sb as nat));
            proof {
                lemma_clamped_is_round_frac(sa as nat, sb as nat, k);
            }
            r
        }
    } else {
        let s: u32 = eb - ea - 149;
        let m = pow2_u128(s);
        proof {
            lemma_pow2_pos(s as nat);
            lemma2_to64();
            lemma_pow2_adds(24, 104);
            if s < 104 {
                lemma_pow2_strictly_increases(s as nat, 104);
            }
            lemma_pow2_adds(64, 40);
            lemma_pow2_adds(32, 8);
            assert((sb as nat) * m < 0x1_0000_0000_0000_0000_0000_0000_0000_0000) by (nonlinear_arith)
                requires sb < 0x100_0000, m <= pow2(104), pow2(104) == pow2(64) * pow2(40),
                    pow2(64) == 0x1_0000_0000_0000_0000, pow2(40) == pow2(32) * pow2(8),
                    pow2(32) == 0x1_0000_0000, pow2(8) == 0x100;
            lemma_mul_strictly_positive(sb as int, m as int);
            assert((sb as nat) * pow2(s as nat) * pow2(0) == (sb as nat) * pow2(s as nat));
        }
        let den: u128 = (sb as u128) * m;
        let x: u128 = 2 * (sa as u128);
        let r = round_core(x / den, x % den != 0, 0, Ghost(sa as nat), Ghost((sb as nat) * pow2(s as nat)));
        proof {
            lemma_clamped_is_round_frac(sa as nat, sb as nat, k);
        }
        r
    };
    signed(neg, mag)
}

/// The sum of two finite encodings, `x` being the one of larger magnitude
/// by scale, then by significand.
fn add_finite(x: u32, y: u32) -> (r: u32)
    requires
        !is_nan(x) && !is_inf(x),
        !is_nan(y) && !is_inf(y),
        scale_of(x) > scale_of(y) || (scale_of(x) == scale_of(y) && sig_of(x) >= sig_of(y)),
    ensures
        r == add_spec(x, y),
{
    let ma = significand(x);
    let mb = significand(y);
    let ea = scale(x);
    let eb = scale(y);
    let delta: u32 = ea - eb;
    let minus = sign(x) != sign(y);
    let ghost ux = units_of(x);
    let ghost uy = units_of(y);
    let ghost pb = pow2(eb as nat);
    let ghost pd = pow2(delta as nat);
    let ghost big: int = ma * pd;
    let ghost nn: int = if minus { big - mb } else { big + mb };
    let ghost s = signed_units(x) + signed_units(y);
    proof {
        lemma_pow2_adds(delta as nat, eb as nat);
        lemma_pow2_pos(eb as nat);
        lemma_pow2_pos(delta as nat);
        assert(ux == big * pb) by (nonlinear_arith)
            requires ux == ma * pow2(ea as nat), pow2(ea as nat) == pd * pb, big == ma * pd;
        assert(uy == mb * pb);
        if delta > 0 {
            lemma2_to64();
            lemma_pow2_strictly_increases(0, delta as nat);
            assert(big >= 2 * EXP_ONE) by (nonlinear_arith)
                requires big == ma * pd, ma >= EXP_ONE, pd >= 2;
        } else {
            lemma2_to64();
            assert(pd == 1);
            assert(big == ma) by (nonlinear_arith)
                requires big == ma * pd, pd == 1;
        }
        assert(nn >= 0);
        assert((if minus { ux - uy } else { (ux + uy) as int }) == nn * pb) by (nonlinear_arith)
            requires ux == big * pb, uy == mb * pb, nn == (if minus { big - mb } else { big + mb });
        assert(s == (if sign_of(x) { -(nn * pb) } else { nn * pb }));
        lemma_mul_strictly_positive(1, pb as int);
        if nn > 0 {
            lemma_mul_strictly_positive(nn, pb as int);
        }
    }
    if delta <= 100 {
        let p = pow2_u128(delta);
        proof {
            lemma2_to64();
            lemma_pow2_adds(64, 36);
            lemma_pow2_adds(32, 4);
            if delta < 100 {
                lemma_pow2_strictly_increases(delta as nat, 100);
            }
            assert((ma as u128) * p <= 0x1000_0000_0000_0000_0000_0000_0000_0000) by (nonlinear_arith)
                requires ma < 0x100_0000, p <= pow2(100), pow2(100) == pow2(64) * pow2(36),
                    pow2(64) == 0x1_0000_0000_0000_0000, pow2(36) == pow2(32) * pow2(4),
                    pow2(32) == 0x1_0000_0000, pow2(4) == 16;
        }
        let bigx: u128 = (ma as u128) * p;
        let n: u128 = if minus { bigx - (mb as u128) } else { bigx + (mb as u128) };
        if n == 0 {
            proof {
                assert(s == 0);
            }
            return if sign(x) && sign(y) { SIGN_BIT } else { 0 };
        }
        let mag = round_exact(n, eb);
        proof {
            assert(s != 0) by (nonlinear_arith)
                requires s == (if sign_of(x) { -(nn * pb) } else { nn * pb }), nn > 0, pb > 0;
            assert((if s < 0 { -s } else { s }) == n as nat * pb);
            lemma2_to64();
            assert(n as nat * pb * pow2(0) == n as nat * pb);
        }
        signed(sign(x), mag)
    } else {
        let sh: u32 = delta - 62;
        let j: u32 = ea - 61;
        let p62 = pow2_u128(62);
        let ghost ps = pow2(sh as nat);
        let ghost n: nat = (nn * pb) as nat;
        proof {
            lemma2_to64();
            lemma_pow2_adds(32, 30);
            lemma_pow2_adds(62, sh as nat);
            lemma_pow2_adds(sh as nat, eb as nat);
            lemma_pow2_adds(1, (sh + eb) as nat);
            lemma_pow2_pos(sh as nat);
            lemma_pow2_strictly_increases(24, sh as nat);
            assert(pd == p62 * ps);
            assert(ma >= EXP_ONE);
            let c = 2 * pb;
            assert(c * nn == 2 * n) by (nonlinear_arith)
                requires n == nn * pb, c == 2 * pb, nn >= 0;
            assert(1 * pow2(j as nat) == c * ps) by (nonlinear_arith)
                requires pow2(j as nat) == 2 * pow2((sh + eb) as nat), pow2((sh + eb) as nat) == ps * pb,
                    c == 2 * pb;
            lemma_div_scaled(nn as nat, ps, c);
            let hi = ma * p62;
            assert(nn == (if minus { big - mb } else { big + mb }));
            assert(big == hi * ps) by (nonlinear_arith)
                requires big == ma * pd, pd == p62 * ps, hi == ma * p62;
            if minus && mb > 0 {
                assert(nn == (hi - 1) * ps + (ps - mb)) by (nonlinear_arith)
                    requires nn == big - mb, big == hi * ps;
                lemma_fundamental_div_mod_converse(nn, ps as int, hi - 1, ps - mb);
            } else {
                assert(nn == hi * ps + mb) by (nonlinear_arith)
                    requires nn == big + mb || (nn == big - mb && mb == 0), big == hi * ps;
                lemma_fundamental_div_mod_converse(nn, ps as int, hi, mb as int);
            }
            assert(c * (nn % (ps as int)) != 0 <==> nn % (ps as int) != 0) by (nonlinear_arith)
                requires c > 0;
            assert(hi - 1 >= 0x100_0000) by (nonlinear_arith)
                requires hi == ma * p62, ma >= EXP_ONE, p62 == 0x4000_0000_0000_0000;
            assert(nn >= 0x100_0000 * ps) by (nonlinear_arith)
                requires nn == (hi - 1) * ps + (ps - mb) || nn == hi * ps + mb, ps > mb, hi - 1 >= 0x100_0000,
                    ps > 0, mb >= 0;
            assert(n >= 1 * pow2((j - 1) as nat) * 0x100_0000) by (nonlinear_arith)
                requires n == nn * pb, nn >= 0x100_0000 * ps, pow2((j - 1) as nat) == ps * pb, pb > 0;
            assert(hi < 0x1_0000_0000_0000_0000_0000_0000) by (nonlinear_arith)
                requires hi == ma * p62, ma < 0x100_0000, p62 == 0x4000_0000_0000_0000;
            assert(s != 0);
            assert((if s < 0 { -s } else { s }) == n);
            assert(n * pow2(0) == n);
        }
        let hi: u128 = (ma as u128) * p62;
        let t: u128 = if minus && mb > 0 { hi - 1 } else { hi };
        let mag = round_core(t, mb > 0, j, Ghost(n), Ghost(1nat));
        signed(sign(x), mag)
    }
}

/// The IEEE-754 sum of two `binary32` encodings.
pub fn float_add(a: u32, b: u32) -> (r: u32)
    ensures
        r == add_spec(a, b),
{
    if nan(a) {
        return quiet(a);
    }
    if nan(b) {
        return quiet(b);
    }
    if inf(a) {
        if inf(b) && sign(a) != sign(b) {
            return DEFAULT_NAN;
        }
        return a;
    }
    if inf(b) {
        return b;
    }
    let ea = scale(a);
    let eb = scale(b);
    if ea > eb || (ea == eb && significand(a) >= significand(b)) {
        add_finite(a, b)
    } else {
        add_finite(b, a)
    }
}

/// The IEEE-754 difference `a - b` of two `binary32` encodings.
pub fn float_sub(a: u32, b: u32) -> (r: u32)
    ensures
        r == sub_spec(a, b),
{
    if nan(a) {
        return quiet(a);
    }
    if nan(b) {
        return quiet(b);
    }
    float_add(a, negate(b))
}

} // verus!
