//! Singles against the machine's own arithmetic.

use autoshop::double::{mean, to_double};
use autoshop::fixed::fixed_text;
use autoshop::single::Single;

fn s(x: f32) -> Single {
    Single::from_bits(x.to_bits())
}

fn same(got: Single, want: f32, what: &str) {
    let got_f = f32::from_bits(got.to_bits());
    if want.is_nan() {
        assert!(got_f.is_nan(), "{what}: {got_f} is a number");
    } else {
        assert_eq!(got.to_bits(), want.to_bits(), "{what}: {got_f:e} against {want:e}");
    }
}

/// Patterns from every corner: zeros, subnormals, powers of two and their
/// neighbours, large values, infinities, and a spread of ordinary ones.
fn patterns() -> Vec<u32> {
    let mut v: Vec<u32> = vec![
        0, 1, 2, 3, 0x7F_FFFF, 0x80_0000, 0x80_0001, 0xFF_FFFF, 0x100_0000, 0x7F7F_FFFF, 0x7F80_0000,
        0x7FC0_0000, 0x3F80_0000, 0x3F7F_FFFF, 0x3F80_0001, 0x4B00_0000, 0x4B7F_FFFF, 0x4B80_0000,
        0x4B80_0001, 0x3F00_0000, 0x3EFF_FFFF, 0x3F00_0001, 0x43B4_0000, 0x43B3_FFFF, 0x4334_0000,
    ];
    let mut x: u32 = 0x1234_5678;
    for _ in 0..60 {
        x = x.wrapping_mul(1_664_525).wrapping_add(1_013_904_223);
        v.push(x & 0x7FFF_FFFF);
        v.push(0x3F00_0000 + (x % 0x0300_0000));
    }
    let n = v.len();
    for i in 0..n {
        v.push(v[i] | 0x8000_0000);
    }
    v
}

#[test]
fn the_four_operations_are_the_machines_own() {
    let p = patterns();
    for &a in &p {
        for &b in &p {
            let (x, y) = (f32::from_bits(a), f32::from_bits(b));
            let (u, v) = (Single::from_bits(a), Single::from_bits(b));
            same(u.plus(v), x + y, &format!("{x:e} + {y:e}"));
            same(u.minus(v), x - y, &format!("{x:e} - {y:e}"));
            same(u.times(v), x * y, &format!("{x:e} * {y:e}"));
            same(u.over(v), x / y, &format!("{x:e} / {y:e}"));
            assert_eq!(u.lt(v), x < y);
            assert_eq!(u.le(v), x <= y);
            assert_eq!(u == v, x == y);
        }
    }
}

#[test]
fn remainders_are_the_machines_own() {
    let p = patterns();
    for &a in &p {
        let (x, u) = (f32::from_bits(a), Single::from_bits(a));
        for y in [360.0f32, 1.0, 0.1, 7.5, -3.0, f32::INFINITY, 1e-40] {
            same(u.rem(s(y)), x % y, &format!("{x:e} % {y:e}"));
            same(u.rem_euclid(s(y)), x.rem_euclid(y), &format!("{x:e} rem_euclid {y:e}"));
        }
    }
}

#[test]
fn rounding_roots_and_casts_are_the_machines_own() {
    for &a in &patterns() {
        let (x, u) = (f32::from_bits(a), Single::from_bits(a));
        same(u.round(), x.round(), &format!("round {x:e}"));
        same(u.floor(), x.floor(), &format!("floor {x:e}"));
        same(u.ceil(), x.ceil(), &format!("ceil {x:e}"));
        same(u.sqrt(), x.sqrt(), &format!("sqrt {x:e}"));
        same(u.abs(), x.abs(), &format!("abs {x:e}"));
        same(u.neg(), -x, &format!("neg {x:e}"));
        assert_eq!(u.to_i32(), x as i32, "{x:e} as i32");
        assert_eq!(u.to_u64(), x as u64, "{x:e} as u64");
        assert_eq!(u.is_finite(), x.is_finite());
        assert_eq!(fixed_text(u), format!("{x:.6}"), "{x:e} with six decimals");
    }
    for n in [0i64, 1, -1, 16_777_217, -16_777_219, i64::MAX, i64::MIN, 33_554_433] {
        same(Single::from_i64(n), n as f32, &format!("{n} as a single"));
    }
    for n in [0u64, 3, u64::MAX, 16_777_217] {
        same(Single::from_u64(n), n as f32, &format!("{n} as a single"));
    }
}

#[test]
fn ties_in_the_last_decimal_go_to_the_even_digit() {
    assert_eq!(fixed_text(s(1.0 / 128.0)), "0.007812");
    assert_eq!(fixed_text(s(3.0 / 128.0)), "0.023438");
    assert_eq!(fixed_text(s(-0.0)), "-0.000000");
    assert_eq!(fixed_text(s(0.517578)), "0.517578");
}

#[test]
fn a_clamp_keeps_what_is_no_number_and_pulls_the_rest_in() {
    same(s(f32::NAN).clamp(s(0.0), s(1.0)), f32::NAN, "NaN");
    same(s(-0.0).clamp(s(0.0), s(1.0)), -0.0, "the negative zero is not below zero");
    same(s(2.0).clamp(s(0.0), s(1.0)), 1.0, "above");
    same(s(f32::NEG_INFINITY).clamp(s(0.0), s(1.0)), 0.0, "below");
}

/// A mean is rounded to a double first, and that to a single: the two roundings meet on a
/// half that one alone would pass.
#[test]
fn a_mean_goes_through_a_double() {
    let (n, d) = (2_147_483_775u128, 2_147_483_647u32);
    same(mean(n, d), 1.0, "just above half of a last place");
    let mut x: u64 = 88_172_645_463_325_252;
    for _ in 0..400 {
        x ^= x << 13;
        x ^= x >> 7;
        x ^= x << 17;
        let d = ((x >> 40) as u32).max(1);
        let n = (x & 0x3F_FFFF_FFFF) % (d as u64 * 60_000);
        same(mean(n as u128, d), (n as f64 / d as f64) as f32, &format!("{n} / {d}"));
    }
    same(mean(0, 7), 0.0, "nought");
    same(mean(1, u32::MAX), (1.0 / u32::MAX as f64) as f32, "the least");
}

/// A whole number as a double holds it.
#[test]
fn a_running_total_is_held_in_a_double() {
    let mut x: u64 = 0x9E37_79B9_7F4A_7C15;
    for k in 0..400u32 {
        x ^= x << 13;
        x ^= x >> 7;
        x ^= x << 17;
        let v = ((x as u128) << (k % 3)) >> (k % 14);
        if v < 1 << 66 {
            assert_eq!(to_double(v), v as f64 as u128, "{v}");
        }
    }
    let top = 1u128 << 53;
    for v in [top - 1, top, top + 1, top + 2, top + 3, 4 * top + 2, 4 * top + 6, (1 << 66) - 1] {
        assert_eq!(to_double(v), v as f64 as u128, "{v}");
    }
}
