use float_bits::{float_add, float_div, float_mul, float_sub};

fn is_nan_bits(r: u32) -> bool {
    f32::from_bits(r).is_nan()
}

/// Patterns that sit on the edges of the format.
const EDGES: [u32; 22] = [
    0x0000_0000, 0x8000_0000, 0x0000_0001, 0x8000_0001, 0x0000_0002, 0x007F_FFFF, 0x0080_0000,
    0x0080_0001, 0x3F80_0000, 0xBF80_0000, 0x3F80_0001, 0x3F7F_FFFF, 0x4000_0000, 0x4040_0000,
    0x7F7F_FFFF, 0xFF7F_FFFF, 0x7F80_0000, 0xFF80_0000, 0x7FC0_0000, 0x7F80_0001, 0x3380_0000,
    0x0040_0000,
];

struct Lcg(u64);

impl Lcg {
    fn next(&mut self) -> u32 {
        self.0 = self.0.wrapping_mul(6364136223846793005).wrapping_add(1442695040888963407);
        (self.0 >> 32) as u32
    }

    /// Mostly values of moderate size, so that sums and products interact.
    fn operand(&mut self) -> u32 {
        let r = self.next();
        match r % 4 {
            0 => r,
            1 => (r & 0x807F_FFFF) | (((r >> 8) % 40 + 108) << 23),
            2 => r & 0x80FF_FFFF,
            _ => (r & 0x807F_FFFF) | (((r >> 8) % 20 + 230) << 23),
        }
    }
}

fn agrees(name: &str, ours: u32, host: f32, a: u32, b: u32) {
    if host.is_nan() {
        assert!(is_nan_bits(ours), "{name}({a:#010x}, {b:#010x}) = {ours:#010x}, expected NaN");
    } else {
        assert_eq!(ours, host.to_bits(), "{name}({a:#010x}, {b:#010x})");
    }
}

fn check_pair(a: u32, b: u32) {
    let x = f32::from_bits(a);
    let y = f32::from_bits(b);
    agrees("add", float_add(a, b), x + y, a, b);
    agrees("sub", float_sub(a, b), x - y, a, b);
    agrees("mul", float_mul(a, b), x * y, a, b);
    agrees("div", float_div(a, b), x / y, a, b);
}

#[test]
fn one_plus_one_is_two() {
    assert_eq!(float_add(0x3F80_0000, 0x3F80_0000), 0x4000_0000);
}

#[test]
fn minus_one_times_one_is_minus_one() {
    assert_eq!(float_mul(0xBF80_0000, 0x3F80_0000), 0xBF80_0000);
}

#[test]
fn positive_over_positive_zero_is_infinity() {
    for a in [0x3F80_0000u32, 0x0000_0001, 0x7F7F_FFFF, 0x4049_0FDB] {
        assert_eq!(float_div(a, 0x0000_0000), 0x7F80_0000);
    }
    assert_eq!(float_div(0xBF80_0000, 0x0000_0000), 0xFF80_0000);
    assert_eq!(float_div(0x3F80_0000, 0x8000_0000), 0xFF80_0000);
}

#[test]
fn zero_over_zero_is_nan() {
    assert!(is_nan_bits(float_div(0x0000_0000, 0x0000_0000)));
    assert!(is_nan_bits(float_div(0x8000_0000, 0x0000_0000)));
}

#[test]
fn add_and_mul_commute() {
    let mut g = Lcg(7);
    for _ in 0..20_000 {
        let a = g.operand();
        let b = g.operand();
        if f32::from_bits(a).is_finite() && f32::from_bits(b).is_finite() {
            assert_eq!(float_add(a, b), float_add(b, a));
            assert_eq!(float_mul(a, b), float_mul(b, a));
        }
    }
    assert_eq!(float_add(0x3F80_0000, 0xC000_0000), float_add(0xC000_0000, 0x3F80_0000));
    assert_eq!(float_mul(0x4040_0000, 0xBF00_0000), 0xBFC0_0000);
    assert_eq!(float_mul(0xBF00_0000, 0x4040_0000), 0xBFC0_0000);
}

#[test]
fn bits_round_trip() {
    for b in [0u32, 0x8000_0000, 0x7F80_0001, 0xFFC0_1234, 0x7FBF_FFFF, 0x3F80_0000, 0x0000_0001] {
        assert_eq!(f32::from_bits(b).to_bits(), b);
    }
}

#[test]
fn ties_round_to_even() {
    // 1 + 2^-24 lies halfway between 1 and the next value up: it stays at 1.
    assert_eq!(float_add(0x3F80_0000, 0x3380_0000), 0x3F80_0000);
    // (1 + 2^-23) + 2^-24 is halfway again: it goes up to the even neighbour.
    assert_eq!(float_add(0x3F80_0001, 0x3380_0000), 0x3F80_0002);
    // 1 - 2^-25 is halfway below 1: ties to 1.
    assert_eq!(float_sub(0x3F80_0000, 0x3300_0000), 0x3F80_0000);
}

#[test]
fn overflow_and_underflow() {
    assert_eq!(float_add(0x7F7F_FFFF, 0x7F7F_FFFF), 0x7F80_0000);
    assert_eq!(float_mul(0x7F7F_FFFF, 0xC000_0000), 0xFF80_0000);
    // The smallest subnormal halved is a tie between zero and itself: zero.
    assert_eq!(float_mul(0x0000_0001, 0x3F00_0000), 0x0000_0000);
    // Times three quarters it rounds up to the smallest subnormal.
    assert_eq!(float_mul(0x0000_0001, 0x3F40_0000), 0x0000_0001);
    assert_eq!(float_div(0x0000_0001, 0x4000_0000), 0x0000_0000);
    assert_eq!(float_div(0x8000_0003, 0x4000_0000), 0x8000_0002);
    // Subnormals add exactly.
    assert_eq!(float_add(0x0000_0003, 0x007F_FFFF), 0x0080_0002);
}

#[test]
fn signed_zeros() {
    assert_eq!(float_add(0x8000_0000, 0x8000_0000), 0x8000_0000);
    assert_eq!(float_add(0x8000_0000, 0x0000_0000), 0x0000_0000);
    assert_eq!(float_add(0x3F80_0000, 0xBF80_0000), 0x0000_0000);
    assert_eq!(float_sub(0x8000_0000, 0x0000_0000), 0x8000_0000);
    assert_eq!(float_mul(0x8000_0000, 0x3F80_0000), 0x8000_0000);
    assert_eq!(float_div(0x0000_0000, 0xBF80_0000), 0x8000_0000);
    assert_eq!(float_div(0x3F80_0000, 0xFF80_0000), 0x8000_0000);
}

#[test]
fn invalid_operations_give_nan() {
    assert!(is_nan_bits(float_add(0x7F80_0000, 0xFF80_0000)));
    assert!(is_nan_bits(float_sub(0x7F80_0000, 0x7F80_0000)));
    assert!(is_nan_bits(float_mul(0x7F80_0000, 0x0000_0000)));
    assert!(is_nan_bits(float_div(0xFF80_0000, 0x7F80_0000)));
    assert_eq!(float_add(0x7F80_0000, 0x7F80_0000), 0x7F80_0000);
    assert_eq!(float_div(0x0000_0000, 0x7FC0_0000), 0x7FC0_0000);
}

#[test]
fn nan_operands_are_quieted_and_kept() {
    assert_eq!(float_add(0x7F80_0001, 0x3F80_0000), 0x7FC0_0001);
    assert_eq!(float_mul(0x3F80_0000, 0xFF80_0005), 0xFFC0_0005);
    assert_eq!(float_sub(0x3F80_0000, 0x7FC0_0000), 0x7FC0_0000);
    assert_eq!(float_div(0x7FC1_2345, 0x7F80_0001), 0x7FC1_2345);
}

#[test]
fn exact_values() {
    assert_eq!(float_div(0x3F80_0000, 0x4040_0000), 0x3EAA_AAAB); // 1 / 3
    assert_eq!(float_div(0x4000_0000, 0x4040_0000), 0x3F2A_AAAB); // 2 / 3
    assert_eq!(float_mul(0x4049_0FDB, 0x4049_0FDB), 0x411D_E9E7); // pi * pi
    assert_eq!(float_sub(0x4049_0FDB, 0x4049_0FDA), 0x3480_0000);
    assert_eq!(float_add(0x4B80_0000, 0x3F80_0000), 0x4B80_0000); // 2^24 + 1
}

#[test]
fn edges_agree_with_host() {
    for &a in EDGES.iter() {
        for &b in EDGES.iter() {
            check_pair(a, b);
        }
    }
}

#[test]
fn random_operands_agree_with_host() {
    let mut g = Lcg(0x5EED);
    for _ in 0..60_000 {
        let a = g.operand();
        let b = g.operand();
        check_pair(a, b);
    }
}

#[test]
fn near_cancellation_agrees_with_host() {
    let mut g = Lcg(42);
    for _ in 0..30_000 {
        let a = g.operand();
        let d = g.next() % 64;
        let b = (a ^ 0x8000_0000).wrapping_add(d).wrapping_sub(32);
        check_pair(a, b);
        check_pair(a, a.wrapping_add(d));
    }
}
