//! The number types against the machine's own.

use faster_paddle::float::{F32, F64};

fn next(state: &mut u64) -> u64 {
    *state = state
        .wrapping_mul(6364136223846793005)
        .wrapping_add(1442695040888963407);
    let x = *state;
    x ^ (x >> 29)
}

/// Bit patterns of all kinds: random ones, near ones, special ones.
fn doubles() -> Vec<f64> {
    let mut v = vec![
        0.0,
        -0.0,
        1.0,
        -1.0,
        0.5,
        1.5,
        2.5,
        -2.5,
        10.0,
        1e-6,
        1e300,
        -1e300,
        5e-324,
        -5e-324,
        f64::MIN_POSITIVE,
        f64::MAX,
        f64::MIN,
        f64::INFINITY,
        f64::NEG_INFINITY,
        f64::NAN,
        9007199254740991.0,
        9007199254740992.0,
        9223372036854775807.0,
        18446744073709551615.0,
        2147483647.0,
        -2147483648.5,
        0.1,
        0.2,
        0.3,
    ];
    let mut s = 7u64;
    for _ in 0..40 {
        v.push(f64::from_bits(next(&mut s)));
    }
    for _ in 0..40 {
        let x = (next(&mut s) % 200_000) as f64 / 64.0 - 1500.0;
        v.push(x);
    }
    v
}

fn singles() -> Vec<f32> {
    let mut v = vec![
        0.0f32,
        1.0,
        -1.0,
        0.5,
        -0.5,
        254.5,
        255.0,
        256.0,
        1e-45,
        -1e-45,
        f32::MIN_POSITIVE,
        f32::MAX,
        f32::MIN,
        f32::INFINITY,
        f32::NEG_INFINITY,
        f32::NAN,
        16777215.0,
        16777216.0,
        0.485,
        0.229,
    ];
    let mut s = 11u64;
    for _ in 0..40 {
        v.push(f32::from_bits(next(&mut s) as u32));
    }
    for _ in 0..40 {
        let x = (next(&mut s) % 100_000) as f32 / 128.0 - 300.0;
        v.push(x);
    }
    v
}

fn d(x: f64) -> F64 {
    F64::from_bits(x.to_bits())
}

fn s(x: f32) -> F32 {
    F32::from_bits(x.to_bits())
}

fn same64(got: F64, want: f64) -> bool {
    let got = f64::from_bits(got.to_bits());
    (got.is_nan() && want.is_nan()) || got == want
}

fn same32(got: F32, want: f32) -> bool {
    let got = f32::from_bits(got.to_bits());
    (got.is_nan() && want.is_nan()) || got == want
}

#[test]
fn double_arithmetic_is_that_of_the_machine() {
    for &a in &doubles() {
        for &b in &doubles() {
            assert!(same64(d(a).plus(d(b)), a + b), "{a:e} + {b:e}");
            assert!(same64(d(a).minus(d(b)), a - b), "{a:e} - {b:e}");
            assert!(same64(d(a).times(d(b)), a * b), "{a:e} * {b:e}");
            if b.to_bits() != (-0.0f64).to_bits() {
                assert!(same64(d(a).over(d(b)), a / b), "{a:e} / {b:e}");
            }
            assert_eq!(d(a).less(d(b)), a < b, "{a:e} < {b:e}");
            assert_eq!(d(a).same(d(b)), a == b, "{a:e} == {b:e}");
            assert!(same64(d(a).larger(d(b)), a.max(b)), "max {a:e} {b:e}");
            assert!(same64(d(a).smaller(d(b)), a.min(b)), "min {a:e} {b:e}");
        }
    }
}

#[test]
fn single_arithmetic_is_that_of_the_machine() {
    for &a in &singles() {
        for &b in &singles() {
            assert!(same32(s(a).plus(s(b)), a + b), "{a:e} + {b:e}");
            assert!(same32(s(a).minus(s(b)), a - b), "{a:e} - {b:e}");
            assert!(same32(s(a).times(s(b)), a * b), "{a:e} * {b:e}");
            assert!(same32(s(a).over(s(b)), a / b), "{a:e} / {b:e}");
            assert_eq!(s(a).less(s(b)), a < b);
            assert_eq!(s(a).same(s(b)), a == b);
            assert!(same32(s(a).larger(s(b)), a.max(b)));
            assert!(same32(s(a).smaller(s(b)), a.min(b)));
        }
    }
}

#[test]
fn rounding_and_conversion_are_those_of_the_machine() {
    for &a in &doubles() {
        assert!(same64(d(a).floored(), a.floor()), "floor {a:e}");
        assert!(same64(d(a).ceiled(), a.ceil()), "ceil {a:e}");
        assert!(same64(d(a).rounded(), a.round()), "round {a:e}");
        assert!(same64(d(a).negate(), -a), "neg {a:e}");
        assert!(same64(d(a).root(), a.sqrt()), "sqrt {a:e}");
        assert_eq!(d(a).is_nan(), a.is_nan());
        assert_eq!(d(a).to_usize(), a as usize, "usize {a:e}");
        assert_eq!(d(a).to_i64(), a as i64, "i64 {a:e}");
        assert_eq!(d(a).to_i32(), a as i32, "i32 {a:e}");
        assert!(same32(d(a).to_single(), a as f32), "f32 {a:e}");
    }
    for &a in &singles() {
        assert!(same32(s(a).floored(), a.floor()), "floor {a:e}");
        assert!(same32(s(a).negate(), -a));
        assert_eq!(s(a).is_nan(), a.is_nan());
        assert_eq!(s(a).to_usize(), a as usize);
        assert_eq!(s(a).to_u8(), a as u8, "u8 {a:e}");
        assert!(same64(s(a).to_double(), a as f64));
    }
    let mut state = 3u64;
    for i in 0..200u64 {
        let n = next(&mut state) >> (i % 64);
        assert!(same64(F64::from_u64(n), n as f64), "{n}");
        assert!(same64(F64::from_i64(n as i64), n as i64 as f64), "{n}");
        assert!(same32(F32::from_u64(n), n as f32), "{n}");
        assert!(same64(F64::from_u16(n as u16), n as u16 as f64));
        assert!(same32(F32::from_u16(n as u16), n as u16 as f32));
    }
    assert!(same64(F64::from_i64(i64::MIN), i64::MIN as f64));
}

#[test]
fn roots_of_many_numbers() {
    let mut state = 5u64;
    for _ in 0..500 {
        let a = f64::from_bits(next(&mut state) & 0x7fff_ffff_ffff_ffff);
        assert!(same64(d(a).root(), a.sqrt()), "sqrt {a:e}");
    }
    for n in 0..300u16 {
        let x = F64::from_u16(n);
        assert!(same64(x.times(x).root(), n as f64));
    }
}
