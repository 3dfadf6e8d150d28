//! What holds of the arithmetic, in terms of the real numbers.

use crate::float::bounds;
use crate::float::model;
use crate::float::model::{Format, Val};
use crate::float::{F32, F64};
use vstd::prelude::*;

verus! {

/// Where an integer is within `d` of `y`, so is its rounding.
proof fn lemma_no_integer_nearer(y: real, k: int, d: real)
    requires
        -d <= k as real - y <= d,
    ensures
        -d <= model::half_even(y) as real - y <= d,
{
    let q = y.floor();
    if k <= q {
        assert(k as real <= q as real);
    } else {
        assert(k as real >= q as real + 1real);
    }
}

/// Where a multiple of a unit is within `d` of `x`, so is its rounding to that unit.
proof fn lemma_no_multiple_nearer(x: real, unit: real, k: int, d: real)
    requires
        unit > 0real,
        -d <= k as real * unit - x <= d,
    ensures
        -d <= model::half_even(x / unit) as real * unit - x <= d,
{
    let (t, e) = (x / unit, d / unit);
    let kr = k as real;
    assert(t * unit == x && e * unit == d) by (nonlinear_arith)
        requires
            unit > 0real,
            t == x / unit,
            e == d / unit,
    ;
    assert(-e <= kr - t <= e) by (nonlinear_arith)
        requires
            unit > 0real,
            t * unit == x,
            e * unit == d,
            -d <= kr * unit - x <= d,
    ;
    lemma_no_integer_nearer(t, k, e);
    let h = model::half_even(t) as real;
    assert(-d <= h * unit - x <= d) by (nonlinear_arith)
        requires
            unit > 0real,
            t * unit == x,
            e * unit == d,
            -e <= h - t <= e,
    ;
}

/// A power of two is a multiple of any lower one.
proof fn lemma_power_multiple(a: int, b: int) -> (k: int)
    requires
        a <= b,
    ensures
        k > 0,
        model::two_pow(b) == k as real * model::two_pow(a),
{
    let n = (b - a) as nat;
    model::lemma_two_pow_add(a, n as int);
    model::lemma_two_pow_nat(n);
    vstd::arithmetic::power2::lemma_pow2_pos(n);
    let (p, q) = (model::two_pow(a), vstd::arithmetic::power2::pow2(n) as real);
    assert(p * q == q * p) by (nonlinear_arith);
    vstd::arithmetic::power2::pow2(n) as int
}

/// Of the numbers of a format, those with as many digits as it keeps, none is nearer to
/// a positive `x` than its rounding: where one is within `d`, so is the rounding.
proof fn lemma_nothing_nearer(f: Format, x: real, n: int, e: int, d: real)
    requires
        x > 0real,
        0 <= n < 2 * f.fractions(),
        f.min_exp() <= e,
        -d <= n as real * model::two_pow(e) - x <= d,
    ensures
        -d <= model::round_digits(f, x) - x <= d,
{
    let u = model::last_digit(f, x);
    let unit = model::two_pow(u);
    model::lemma_two_pow_pos(u);
    model::lemma_two_pow_pos(e);
    if e >= u {
        let k = lemma_power_multiple(u, e);
        model::lemma_real_mul(n, k);
        let (nr, kr, p) = (n as real, k as real, model::two_pow(e));
        assert(nr * p == (nr * kr) * unit) by (nonlinear_arith)
            requires
                p == kr * unit,
        ;
        lemma_no_multiple_nearer(x, unit, n * k, d);
    } else {
        bounds::lemma_has_binade(x);
        let b = model::binade(x);
        assert(u == b - f.digits() + 1);
        let k = lemma_power_multiple(u, b);
        let low = model::two_pow(b);
        lemma_full_digits(f, e);
        model::lemma_two_pow_increases(e + f.digits(), b);
        let (nr, p) = (n as real, model::two_pow(e));
        let full = (2 * f.fractions()) as real;
        assert(nr * p <= full * p) by (nonlinear_arith)
            requires
                nr <= full,
                p > 0real,
        ;
        assert(nr * p <= low && low <= x);
        lemma_no_multiple_nearer(x, unit, k, d);
    }
}

proof fn lemma_full_digits(f: Format, e: int)
    ensures
        (2 * f.fractions()) as real * model::two_pow(e) == model::two_pow(e + f.digits()),
{
    vstd::arithmetic::power2::lemma2_to64();
    vstd::arithmetic::power2::lemma2_to64_rest();
    model::lemma_two_pow_nat(f.digits() as nat);
    model::lemma_two_pow_add(f.digits(), e);
}

/// An operation returns the number of its format that is nearest to the exact result
/// `x`: no number with as many digits, `n` times a power of two, is nearer.
pub proof fn law_results_are_nearest(f: Format, x: real, n: int, e: int)
    requires
        -2 * f.fractions() < n < 2 * f.fractions(),
        f.min_exp() <= e,
        model::nearest(f, x) is Fin,
    ensures
        bounds::abs(model::nearest(f, x)->Fin_0 - x) <= bounds::abs(
            n as real * model::two_pow(e) - x,
        ),
{
    let p = model::two_pow(e);
    let z = n as real * p;
    let d = bounds::abs(z - x);
    model::lemma_two_pow_pos(e);
    if x > 0real {
        if n >= 0 {
            lemma_nothing_nearer(f, x, n, e, d);
        } else {
            let nr = n as real;
            assert(nr * p <= 0real && 0real * p == 0real) by (nonlinear_arith)
                requires
                    nr <= 0real,
                    p > 0real,
            ;
            lemma_nothing_nearer(f, x, 0, e, d);
        }
    } else if x < 0real {
        let nr = n as real;
        let m = (-n) as real;
        assert(m * p == -(nr * p)) by (nonlinear_arith)
            requires
                m == -nr,
        ;
        if n <= 0 {
            lemma_nothing_nearer(f, -x, -n, e, d);
        } else {
            assert(nr * p >= 0real && 0real * p == 0real) by (nonlinear_arith)
                requires
                    nr >= 0real,
                    p > 0real,
            ;
            lemma_nothing_nearer(f, -x, 0, e, d);
        }
    }
}

/// Of two numbers that are equally near the even one is returned: halfway between two
/// integers of full length, that is the even integer.
pub proof fn law_ties_go_to_the_even(f: Format, n: int) -> (m: int)
    requires
        f.fractions() <= n < 2 * f.fractions() - 1,
    ensures
        model::nearest(f, n as real + 1real / 2real) == Val::Fin(m as real),
        m == n || m == n + 1,
        m % 2 == 0,
{
    let x = n as real + 1real / 2real;
    let b = f.digits() - 1;
    vstd::arithmetic::power2::lemma2_to64();
    vstd::arithmetic::power2::lemma2_to64_rest();
    model::lemma_two_pow_nat(b as nat);
    model::lemma_two_pow_succ(b);
    model::lemma_binade(x, b);
    assert(model::last_digit(f, x) == 0);
    assert(model::two_pow(0) == 1real);
    assert(x / 1real == x) by (nonlinear_arith);
    assert(x.floor() == n);
    let m = model::half_even(x);
    let mr = m as real;
    assert(mr * 1real == mr) by (nonlinear_arith);
    model::lemma_two_pow_increases(b + 1, f.max_exp() + f.digits());
    assert(model::round_digits(f, x) == mr);
    m
}

/// Adding, subtracting, multiplying and dividing doubles gives the exact result, to
/// within one part in 2^53.
pub proof fn law_double_arithmetic(
    a: F64,
    b: F64,
    x: real,
    y: real,
    sum: F64,
    difference: F64,
    product: F64,
    quotient: F64,
)
    requires
        call_ensures(F64::plus, (a, b), sum),
        call_ensures(F64::minus, (a, b), difference),
        call_ensures(F64::times, (a, b), product),
        call_ensures(F64::over, (a, b), quotient),
        a@ == Val::Fin(x),
        b@ == Val::Fin(y),
        y != 0real,
        bounds::abs(x + y) <= 0x1_0000_0000_0000_0000_0000_0000real,
        bounds::abs(x - y) <= 0x1_0000_0000_0000_0000_0000_0000real,
        bounds::abs(x * y) <= 0x1_0000_0000_0000_0000_0000_0000real,
        bounds::abs(x / y) <= 0x1_0000_0000_0000_0000_0000_0000real,
    ensures
        is_near(Format::Double, sum@, x + y),
        is_near(Format::Double, difference@, x - y),
        is_near(Format::Double, product@, x * y),
        is_near(Format::Double, quotient@, x / y),
{
    assert(x + -y == x - y);
    bounds::lemma_double_error(x + y);
    bounds::lemma_double_error(x - y);
    bounds::lemma_double_error(x * y);
    bounds::lemma_double_error(x / y);
}

/// Adding, subtracting, multiplying and dividing singles gives the exact result, to
/// within one part in 2^24.
pub proof fn law_single_arithmetic(
    a: F32,
    b: F32,
    x: real,
    y: real,
    sum: F32,
    difference: F32,
    product: F32,
    quotient: F32,
)
    requires
        call_ensures(F32::plus, (a, b), sum),
        call_ensures(F32::minus, (a, b), difference),
        call_ensures(F32::times, (a, b), product),
        call_ensures(F32::over, (a, b), quotient),
        a@ == Val::Fin(x),
        b@ == Val::Fin(y),
        y != 0real,
        bounds::abs(x + y) <= 0x1_0000_0000_0000_0000_0000_0000real,
        bounds::abs(x - y) <= 0x1_0000_0000_0000_0000_0000_0000real,
        bounds::abs(x * y) <= 0x1_0000_0000_0000_0000_0000_0000real,
        bounds::abs(x / y) <= 0x1_0000_0000_0000_0000_0000_0000real,
    ensures
        is_near(Format::Single, sum@, x + y),
        is_near(Format::Single, difference@, x - y),
        is_near(Format::Single, product@, x * y),
        is_near(Format::Single, quotient@, x / y),
{
    assert(x + -y == x - y);
    bounds::lemma_single_error(x + y);
    bounds::lemma_single_error(x - y);
    bounds::lemma_single_error(x * y);
    bounds::lemma_single_error(x / y);
}

/// `v` is `x` to the digits of the format, or to the smallest numbers around zero.
pub open spec fn is_near(f: Format, v: Val, x: real) -> bool {
    match f {
        Format::Double => v matches Val::Fin(y) && bounds::abs(y - x) <= bounds::abs(x)
            / 0x20_0000_0000_0000real + 1real / 0x1_0000_0000_0000_0000_0000_0000_0000_0000real,
        Format::Single => v matches Val::Fin(y) && bounds::abs(y - x) <= bounds::abs(x)
            / 0x100_0000real + 1real / 0x100_0000_0000real,
    }
}

/// Doubles are compared as numbers; one that is no number is not less, nor equal, nor
/// chosen.
pub proof fn law_doubles_are_compared(
    a: F64,
    b: F64,
    less: bool,
    same: bool,
    larger: F64,
    smaller: F64,
)
    requires
        call_ensures(F64::less, (a, b), less),
        call_ensures(F64::same, (a, b), same),
        call_ensures(F64::larger, (a, b), larger),
        call_ensures(F64::smaller, (a, b), smaller),
    ensures
        a@ is Fin && b@ is Fin ==> (less <==> a@->Fin_0 < b@->Fin_0) && (same <==> a@->Fin_0
            == b@->Fin_0),
        a@ is Nan || b@ is Nan ==> !less && !same,
        a@ is Nan ==> larger@ == b@ && smaller@ == b@,
        b@ is Nan ==> larger@ == a@ && smaller@ == a@,
        larger@ == a@ || larger@ == b@,
        smaller@ == a@ || smaller@ == b@,
        a@ is Fin && b@ is Fin ==> larger@->Fin_0 >= a@->Fin_0 && larger@->Fin_0 >= b@->Fin_0
            && smaller@->Fin_0 <= a@->Fin_0 && smaller@->Fin_0 <= b@->Fin_0,
{
}

/// Singles are compared in the same way.
pub proof fn law_singles_are_compared(
    a: F32,
    b: F32,
    less: bool,
    same: bool,
    larger: F32,
    smaller: F32,
)
    requires
        call_ensures(F32::less, (a, b), less),
        call_ensures(F32::same, (a, b), same),
        call_ensures(F32::larger, (a, b), larger),
        call_ensures(F32::smaller, (a, b), smaller),
    ensures
        a@ is Fin && b@ is Fin ==> (less <==> a@->Fin_0 < b@->Fin_0) && (same <==> a@->Fin_0
            == b@->Fin_0),
        a@ is Nan || b@ is Nan ==> !less && !same,
        a@ is Nan ==> larger@ == b@ && smaller@ == b@,
        b@ is Nan ==> larger@ == a@ && smaller@ == a@,
        larger@ == a@ || larger@ == b@,
        smaller@ == a@ || smaller@ == b@,
        a@ is Fin && b@ is Fin ==> larger@->Fin_0 >= a@->Fin_0 && larger@->Fin_0 >= b@->Fin_0
            && smaller@->Fin_0 <= a@->Fin_0 && smaller@->Fin_0 <= b@->Fin_0,
{
}

/// Rounding to an integer: down, up, and to the nearest, halves away from zero.
pub proof fn law_rounding_to_integers(a: F64, x: real, down: F64, up: F64, nearest: F64) -> (r: (
    int,
    int,
    int,
))
    requires
        call_ensures(F64::floored, (a,), down),
        call_ensures(F64::ceiled, (a,), up),
        call_ensures(F64::rounded, (a,), nearest),
        a@ == Val::Fin(x),
    ensures
        down@ == Val::Fin(r.0 as real),
        r.0 as real <= x && x < r.0 as real + 1real,
        up@ == Val::Fin(r.1 as real),
        r.1 as real - 1real < x && x <= r.1 as real,
        nearest@ == Val::Fin(r.2 as real),
        -1real / 2real <= r.2 as real - x <= 1real / 2real,
        x >= 0real ==> r.2 as real - x > -1real / 2real,
        x <= 0real ==> r.2 as real - x < 1real / 2real,
{
    let n = -x;
    let up = -(n.floor());
    assert(up as real == -(n.floor() as real));
    (x.floor(), up, model::half_away(x))
}

/// `n` is `x` without its fraction, or the end of the range that is nearer to it.
pub open spec fn is_cut(n: int, v: Val, lo: int, hi: int) -> bool {
    &&& v is Nan ==> n == 0
    &&& v == Val::PosInf ==> n == hi
    &&& v == Val::NegInf ==> n == lo
    &&& v is Fin ==> {
        let x = v->Fin_0;
        &&& x >= (hi + 1) as real ==> n == hi
        &&& x <= (lo - 1) as real ==> n == lo
        &&& 0real <= x && x < (hi + 1) as real ==> n as real <= x && x < n as real + 1real
        &&& x <= 0real && x > (lo - 1) as real ==> x <= n as real && n as real - 1real < x
    }
}

proof fn lemma_is_cut(v: Val, lo: int, hi: int)
    requires
        lo <= 0 <= hi,
    ensures
        is_cut(model::to_int(v, lo, hi), v, lo, hi),
{
    if let Val::Fin(x) = v {
        let n = model::truncate(x);
        if x >= 0real {
            assert(n as real <= x && x < n as real + 1real);
            if n > hi {
                assert(n >= hi + 1);
            }
        } else {
            let m = -x;
            assert(m.floor() as real <= m && m < m.floor() as real + 1real);
            assert(x <= n as real && n as real - 1real < x);
            assert(n <= 0);
            if n < lo {
                assert(n <= lo - 1);
            }
        }
    }
}

/// Doubles become integers by losing their fraction, within the range of the type.
pub proof fn law_doubles_are_cut(a: F64, n: usize, i: i64, j: i32)
    requires
        call_ensures(F64::to_usize, (a,), n),
        call_ensures(F64::to_i64, (a,), i),
        call_ensures(F64::to_i32, (a,), j),
    ensures
        is_cut(n as int, a@, 0, usize::MAX as int),
        is_cut(i as int, a@, i64::MIN as int, i64::MAX as int),
        is_cut(j as int, a@, i32::MIN as int, i32::MAX as int),
{
    lemma_is_cut(a@, 0, usize::MAX as int);
    lemma_is_cut(a@, i64::MIN as int, i64::MAX as int);
    lemma_is_cut(a@, i32::MIN as int, i32::MAX as int);
}

/// Singles become integers in the same way.
pub proof fn law_singles_are_cut(a: F32, n: usize, b: u8)
    requires
        call_ensures(F32::to_usize, (a,), n),
        call_ensures(F32::to_u8, (a,), b),
    ensures
        is_cut(n as int, a@, 0, usize::MAX as int),
        is_cut(b as int, a@, 0, 255),
{
    lemma_is_cut(a@, 0, usize::MAX as int);
    lemma_is_cut(a@, 0, 255);
}

/// The root of a whole number has the integer part of the exact root; a negative number
/// has none.
pub proof fn law_root_of_a_whole_number(a: F64, n: int, r: F64, k: int)
    requires
        call_ensures(F64::root, (a,), r),
        a@ == Val::Fin(n as real),
        n < 0x8_0000_0000_0000,
        k >= 0,
        k * k <= n < (k + 1) * (k + 1) || n < 0,
    ensures
        n < 0 ==> r@ is Nan,
        n >= 0 ==> r@ is Fin && k as real <= r@->Fin_0 && r@->Fin_0 < (k + 1) as real,
        n == k * k ==> r@ == Val::Fin(k as real),
{
    if n > 0 {
        bounds::lemma_root_of_whole(n, k);
    }
    if n >= 0 && n == k * k {
        assert(k < 0x400_0000) by (nonlinear_arith)
            requires
                k * k < 0x8_0000_0000_0000,
                k >= 0,
        ;
        bounds::lemma_root_of_square(k);
    }
    if n == 0 {
        assert(k == 0) by (nonlinear_arith)
            requires
                k * k <= 0,
                k >= 0,
        ;
    }
    assert(k * k >= 0) by (nonlinear_arith);
}

} // verus!
