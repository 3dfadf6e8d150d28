//! What rounding leaves alone, and how far it can move a number.

use crate::float::model;
use crate::float::model::{Format, Val};
use crate::float::parts;
use vstd::arithmetic::power2::*;
use vstd::prelude::*;

verus! {

pub open spec fn abs(x: real) -> real {
    if x < 0real {
        -x
    } else {
        x
    }
}

/// The unit in the last place, relative to a number: half of it bounds the
/// error of a rounding.
pub open spec fn precision(f: Format) -> real {
    model::two_pow(-f.digits())
}

/// A number of few enough digits is not changed by rounding.
pub proof fn lemma_exact(f: Format, n: int, e: int)
    requires
        -2 * f.fractions() < n < 2 * f.fractions(),
        f.min_exp() <= e <= f.max_exp(),
    ensures
        model::nearest(f, n as real * model::two_pow(e)) == Val::Fin(
            n as real * model::two_pow(e),
        ),
{
    if n >= 0 {
        parts::lemma_nearest_exact(f, false, n, e);
    } else {
        parts::lemma_nearest_exact(f, true, -n, e);
        let p = model::two_pow(e);
        assert(-((-n) as real * p) == n as real * p) by (nonlinear_arith);
    }
}

/// An integer of few enough digits is not changed by rounding.
pub proof fn lemma_whole(f: Format, n: int)
    requires
        -2 * f.fractions() < n < 2 * f.fractions(),
    ensures
        model::nearest(f, n as real) == Val::Fin(n as real),
{
    lemma_exact(f, n, 0);
    assert(model::two_pow(0) == 1real);
    assert(n as real * model::two_pow(0) == n as real);
}

/// Half of an integer of few enough digits is not changed by rounding.
pub proof fn lemma_half(f: Format, n: int)
    requires
        -2 * f.fractions() < n < 2 * f.fractions(),
    ensures
        model::nearest(f, n as real / 2real) == Val::Fin(n as real / 2real),
{
    lemma_exact(f, n, -1);
    assert(model::two_pow(0) == 1real);
    assert(model::two_pow(-1) == 1real / 2real);
    assert(n as real * (1real / 2real) == n as real / 2real);
}

/// Every positive number lies between two powers of two.
pub proof fn lemma_has_binade(x: real)
    requires
        x > 0real,
    ensures
        model::two_pow(model::binade(x)) <= x < model::two_pow(model::binade(x) + 1),
{
    if x >= 1real {
        lemma_above_one(x);
    } else {
        let y = 1real / x;
        assert(y > 1real && x * y == 1real) by (nonlinear_arith)
            requires
                0real < x < 1real,
                y == 1real / x,
        ;
        let k = lemma_above_one(y);
        let p = model::two_pow(k);
        let q = model::two_pow(-k);
        let r = model::two_pow(-k - 1);
        model::lemma_two_pow_add(k, -k);
        model::lemma_two_pow_add(k + 1, -k - 1);
        model::lemma_two_pow_succ(k);
        model::lemma_two_pow_succ(-k - 1);
        model::lemma_two_pow_succ(-k);
        model::lemma_two_pow_pos(k);
        model::lemma_two_pow_pos(-k - 1);
        assert(model::two_pow(0) == 1real);
        assert(r < x && x <= q) by (nonlinear_arith)
            requires
                x > 0real,
                x * y == 1real,
                p <= y,
                y < 2real * p,
                p * q == 1real,
                2real * r == q,
                p > 0real,
                q > 0real,
        ;
        if x == q {
            model::lemma_binade(x, -k);
        } else {
            model::lemma_binade(x, -k - 1);
        }
    }
}

proof fn lemma_above_one(x: real) -> (k: int)
    requires
        x >= 1real,
    ensures
        model::two_pow(k) <= x < model::two_pow(k + 1),
        model::binade(x) == k,
{
    let n = x.floor();
    let len = parts::lemma_some_len(n);
    let k = len - 1;
    model::lemma_two_pow_nat(k as nat);
    model::lemma_two_pow_nat(len as nat);
    assert(pow2(len as nat) >= n + 1);
    assert(pow2(len as nat) as real >= (n + 1) as real);
    model::lemma_binade(x, k);
    k
}

proof fn lemma_half_even_near(y: real)
    ensures
        abs(model::half_even(y) as real - y) <= 1real / 2real,
{
}

proof fn lemma_error_positive(f: Format, a: real) -> (z: real)
    requires
        0real < a < model::two_pow(f.max_exp() + f.digits() - 1),
    ensures
        model::round_digits(f, a) == z,
        z < model::two_pow(f.max_exp() + f.digits()),
        z >= 0real,
        abs(z - a) <= a * precision(f) + model::two_pow(f.min_exp() - 1),
{
    let p = precision(f);
    let tiny = model::two_pow(f.min_exp() - 1);
    model::lemma_two_pow_pos(-f.digits());
    model::lemma_two_pow_pos(f.min_exp() - 1);
    lemma_has_binade(a);
    let k = model::binade(a);
    let e = model::last_digit(f, a);
    let unit = model::two_pow(e);
    model::lemma_two_pow_pos(e);
    let q = a / unit;
    let m = model::half_even(q);
    lemma_half_even_near(q);
    let z = m as real * unit;
    assert(abs(z - a) <= unit / 2real && q >= 0real) by (nonlinear_arith)
        requires
            q == a / unit,
            unit > 0real,
            a >= 0real,
            abs(m as real - q) <= 1real / 2real,
            z == m as real * unit,
    ;
    assert(m >= 0);
    assert(z >= 0real) by (nonlinear_arith)
        requires
            z == m as real * unit,
            m >= 0,
            unit > 0real,
    ;
    model::lemma_two_pow_succ(e - 1);
    // half a unit is small
    if e == f.min_exp() {
        assert(unit / 2real == tiny);
        assert(a * p >= 0real) by (nonlinear_arith)
            requires
                a >= 0real,
                p > 0real,
        ;
    } else {
        assert(e - 1 == k - f.digits());
        model::lemma_two_pow_add(k, -f.digits());
        let b = model::two_pow(k);
        assert(b * p <= a * p) by (nonlinear_arith)
            requires
                b <= a,
                p > 0real,
        ;
    }
    // and the result is not out of range
    let top = model::two_pow(f.max_exp() + f.digits() - 1);
    model::lemma_two_pow_succ(f.max_exp() + f.digits() - 1);
    assert(p <= 1real / 4real) by {
        model::lemma_two_pow_increases(-f.digits(), -2);
        assert(model::two_pow(0) == 1real);
        assert(model::two_pow(-1) == 1real / 2real);
        assert(model::two_pow(-2) == 1real / 4real);
    }
    assert(tiny <= top / 2real) by {
        model::lemma_two_pow_increases(f.min_exp() - 1, f.max_exp() + f.digits() - 2);
        model::lemma_two_pow_succ(f.max_exp() + f.digits() - 2);
    }
    assert(a * p <= a / 4real) by (nonlinear_arith)
        requires
            a >= 0real,
            p <= 1real / 4real,
    ;
    assert(z < 2real * top);
    z
}

/// Rounding moves a number by at most half a unit in its last place.
pub proof fn lemma_error(f: Format, x: real) -> (y: real)
    requires
        abs(x) < model::two_pow(f.max_exp() + f.digits() - 1),
    ensures
        model::nearest(f, x) == Val::Fin(y),
        abs(y - x) <= abs(x) * precision(f) + model::two_pow(f.min_exp() - 1),
        x >= 0real ==> y >= 0real,
        x <= 0real ==> y <= 0real,
{
    if x > 0real {
        lemma_error_positive(f, x)
    } else if x < 0real {
        -lemma_error_positive(f, -x)
    } else {
        model::lemma_two_pow_pos(f.min_exp() - 1);
        let p = precision(f);
        assert(0real * p == 0real) by (nonlinear_arith);
        0real
    }
}

/// What is not below a multiple of the unit is not rounded below it.
proof fn lemma_not_below(x: real, m: int, unit: real)
    requires
        unit > 0real,
        x >= m as real * unit,
    ensures
        model::half_even(x / unit) as real * unit >= m as real * unit,
{
    let q = x / unit;
    assert(q >= m as real) by (nonlinear_arith)
        requires
            q == x / unit,
            unit > 0real,
            x >= m as real * unit,
    ;
    let h = model::half_even(q);
    assert(h >= m);
    assert(h as real * unit >= m as real * unit) by (nonlinear_arith)
        requires
            h >= m,
            unit > 0real,
    ;
}

/// A double is not rounded below an integer of few enough digits that it is not
/// below.
pub proof fn lemma_stays_above(n: int, x: real)
    requires
        0 < n < 0x20_0000_0000_0000,
        x >= n as real,
    ensures
        !model::nearest(Format::Double, x).less(Val::Fin(n as real)),
        !(model::nearest(Format::Double, x) is Nan),
{
    let f = Format::Double;
    let k = lemma_above_one(x);
    let j = lemma_above_one(n as real);
    assert(k >= 0) by {
        if k < 0 {
            model::lemma_two_pow_increases(k + 1, 0);
            assert(model::two_pow(0) == 1real);
        }
    }
    assert(k >= j) by {
        if k < j {
            model::lemma_two_pow_increases(k + 1, j);
        }
    }
    let e = model::last_digit(f, x);
    assert(e == k - 52);
    let unit = model::two_pow(e);
    model::lemma_two_pow_pos(e);
    if k == j {
        assert(k <= 52) by {
            if k > 52 {
                model::lemma_two_pow_increases(53, k);
                lemma_figures(53);
            }
        }
        let d = (52 - k) as nat;
        let m = n * pow2(d) as int;
        model::lemma_two_pow_nat(d);
        model::lemma_two_pow_add(52 - k, e);
        assert(model::two_pow(0) == 1real);
        model::lemma_real_mul(n, pow2(d) as int);
        let (nr, p) = (n as real, pow2(d) as int as real);
        assert(m as real * unit == nr) by (nonlinear_arith)
            requires
                m as real == nr * p,
                p * unit == 1real,
        ;
        lemma_not_below(x, m, unit);
    } else {
        let m = pow2(52) as int;
        model::lemma_two_pow_nat(52);
        model::lemma_two_pow_add(52, e);
        assert(m as real * unit == model::two_pow(k));
        lemma_not_below(x, m, unit);
        model::lemma_two_pow_increases(j + 1, k);
    }
}

/// A number within a power of two is not rounded past it.
pub proof fn lemma_stays_within(f: Format, x: real, p: int) -> (y: real)
    requires
        f.min_exp() <= p <= f.max_exp(),
        abs(x) <= model::two_pow(p),
    ensures
        model::nearest(f, x) == Val::Fin(y),
        abs(y) <= model::two_pow(p),
        x >= 0real ==> y >= 0real,
        x <= 0real ==> y <= 0real,
{
    let top = model::two_pow(p);
    let a = abs(x);
    model::lemma_two_pow_pos(p);
    model::lemma_two_pow_increases(p, f.max_exp() + f.digits() - 1);
    model::lemma_two_pow_increases(p, f.max_exp() + f.digits());
    if x == 0real {
        0real
    } else if a == top {
        lemma_exact(f, 1, p);
        lemma_exact(f, -1, p);
        assert(1real * top == top);
        assert(-1real * top == -top);
        assert((-1int) as real == -1real);
        x
    } else {
        let y = lemma_error(f, x);
        lemma_has_binade(a);
        let k = model::binade(a);
        assert(k < p) by {
            if k >= p {
                model::lemma_two_pow_increases(p, k);
            }
        }
        let e = model::last_digit(f, a);
        let unit = model::two_pow(e);
        model::lemma_two_pow_pos(e);
        let d = (p - e) as nat;
        let m = pow2(d) as int;
        model::lemma_two_pow_nat(d);
        model::lemma_two_pow_add(p - e, e);
        assert(m as real * unit == top);
        lemma_not_above(a, m, unit);
        y
    }
}

/// What is not above a multiple of the unit is not rounded above it.
proof fn lemma_not_above(x: real, m: int, unit: real)
    requires
        unit > 0real,
        x <= m as real * unit,
    ensures
        model::half_even(x / unit) as real * unit <= m as real * unit,
{
    let q = x / unit;
    assert(q <= m as real) by (nonlinear_arith)
        requires
            q == x / unit,
            unit > 0real,
            x <= m as real * unit,
    ;
    let h = model::half_even(q);
    assert(h <= m);
    assert(h as real * unit <= m as real * unit) by (nonlinear_arith)
        requires
            h <= m,
            unit > 0real,
    ;
}

/// A third of an integer is rounded by at most a third.
proof fn lemma_third(n: int, q: real)
    requires
        q == n as real / 3real,
    ensures
        abs(model::half_even(q) as real - q) <= 1real / 3real,
{
    let a = n / 3;
    let b = n % 3;
    assert(n == 3 * a + b && 0 <= b < 3);
    assert(n as real == 3real * a as real + b as real);
    assert(q == a as real + b as real / 3real);
    assert(q.floor() == a);
}

/// What is within a half of an even integer is rounded to it.
proof fn lemma_to_even(y: real, n: int)
    requires
        n % 2 == 0,
        abs(y - n as real) <= 1real / 2real,
    ensures
        model::half_even(y) == n,
{
    if y >= n as real {
        assert(y.floor() == n);
    } else {
        assert(y.floor() == n - 1);
    }
}

/// The double nearest to `m` over 48 is off by at most a third of a unit.
proof fn lemma_over_48(m: int, x: real) -> (r: real)
    requires
        0 < m < 0x8_0000_0000_0000,
        x == m as real / 48real,
    ensures
        model::nearest(Format::Double, x) == Val::Fin(r),
        -6 <= model::binade(x) <= 45,
        abs(r - x) <= model::two_pow(model::binade(x) - 52) / 3real,
{
    let f = Format::Double;
    lemma_has_binade(x);
    let k = model::binade(x);
    assert(-6 <= k <= 45) by {
        assert(model::two_pow(0) == 1real);
        assert(model::two_pow(-1) == 1real / 2real);
        assert(model::two_pow(-2) == 1real / 4real);
        assert(model::two_pow(-3) == 1real / 8real);
        assert(model::two_pow(-4) == 1real / 16real);
        assert(model::two_pow(-5) == 1real / 32real);
        assert(model::two_pow(-6) == 1real / 64real);
        lemma2_to64();
        lemma2_to64_rest();
        model::lemma_two_pow_nat(46);
        assert(x < pow2(46) as real);
        if k < -6 {
            model::lemma_two_pow_increases(k + 1, -6);
        }
        if k > 45 {
            model::lemma_two_pow_increases(46, k);
        }
    }
    let e = k - 52;
    assert(model::last_digit(f, x) == e);
    let u = model::two_pow(e);
    model::lemma_two_pow_pos(e);
    let d = (-e - 4) as nat;
    let n = m * pow2(d) as int;
    let q = x / u;
    model::lemma_two_pow_nat(d);
    model::lemma_two_pow_add(d as int, e);
    assert(model::two_pow(0) == 1real);
    assert(model::two_pow(-1) == 1real / 2real);
    assert(model::two_pow(-2) == 1real / 4real);
    assert(model::two_pow(-3) == 1real / 8real);
    assert(model::two_pow(-4) == 1real / 16real);
    model::lemma_real_mul(m, pow2(d) as int);
    let (mr, p) = (m as real, pow2(d) as int as real);
    assert(q == n as real / 3real) by (nonlinear_arith)
        requires
            q == x / u,
            x == mr / 48real,
            n as real == mr * p,
            p * u == 1real / 16real,
            u > 0real,
    ;
    lemma_third(n, q);
    let h = model::half_even(q) as real;
    let r = lemma_double_error(x);
    assert(r == h * u);
    let g = h - q;
    assert(r - x == g * u) by (nonlinear_arith)
        requires
            r == h * u,
            g == h - q,
            q == x / u,
            u > 0real,
    ;
    assert(-(u / 3real) <= g * u <= u / 3real) by (nonlinear_arith)
        requires
            -(1real / 3real) <= g <= 1real / 3real,
            u > 0real,
    ;
    r
}

/// Dividing by 48 and multiplying by it again gives an integer back.
pub proof fn lemma_back_from_48(m: int, x: real) -> (r: real)
    requires
        0 < m < 0x8_0000_0000_0000,
        x == m as real / 48real,
    ensures
        model::nearest(Format::Double, x) == Val::Fin(r),
        model::nearest(Format::Double, 48real * r) == Val::Fin(m as real),
{
    let f = Format::Double;
    let r = lemma_over_48(m, x);
    lemma_has_binade(x);
    let k = model::binade(x);
    let u = model::two_pow(k - 52);
    model::lemma_two_pow_pos(k - 52);
    let y = 48real * r;
    let mr = m as real;
    assert(-(16real * u) <= y - mr <= 16real * u);
    // the unit of the product is at least 32 of those of the quotient
    let low = model::two_pow(k);
    model::lemma_two_pow_succ(k);
    model::lemma_two_pow_succ(k + 1);
    model::lemma_two_pow_succ(k + 2);
    model::lemma_two_pow_succ(k + 3);
    model::lemma_two_pow_succ(k + 4);
    assert(model::two_pow(k + 5) == 32real * low);
    model::lemma_two_pow_increases(k - 52, k - 4);
    model::lemma_two_pow_succ(k - 4);
    model::lemma_two_pow_succ(k - 3);
    model::lemma_two_pow_succ(k - 2);
    model::lemma_two_pow_succ(k - 1);
    assert(16real * u <= low);
    assert(y >= 47real * low);
    lemma_has_binade(y);
    let b = model::binade(y);
    assert(b >= k + 5) by {
        if b < k + 5 {
            model::lemma_two_pow_increases(b + 1, k + 5);
        }
    }
    assert(b <= 51) by {
        lemma2_to64();
        lemma2_to64_rest();
        model::lemma_two_pow_nat(52);
        model::lemma_two_pow_nat(46);
        model::lemma_two_pow_increases(k, 45);
        model::lemma_two_pow_nat(45);
        assert(y < pow2(52) as real);
        if b > 51 {
            model::lemma_two_pow_increases(52, b);
        }
    }
    let e = b - 52;
    assert(model::last_digit(f, y) == e);
    let unit = model::two_pow(e);
    model::lemma_two_pow_pos(e);
    model::lemma_two_pow_increases(k - 47, e);
    model::lemma_two_pow_succ(k - 52);
    model::lemma_two_pow_succ(k - 51);
    model::lemma_two_pow_succ(k - 50);
    model::lemma_two_pow_succ(k - 49);
    model::lemma_two_pow_succ(k - 48);
    assert(32real * u <= unit);
    // the integer is an even number of those units
    let d = (52 - b) as nat;
    let n = m * pow2(d) as int;
    model::lemma_two_pow_nat(d);
    model::lemma_two_pow_add(52 - b, e);
    assert(model::two_pow(0) == 1real);
    lemma_pow2_unfold(d);
    let half = m * pow2((d - 1) as nat) as int;
    assert(n == 2 * half) by (nonlinear_arith)
        requires
            n == m * pow2(d) as int,
            half == m * pow2((d - 1) as nat) as int,
            pow2(d) == 2 * pow2((d - 1) as nat),
    ;
    model::lemma_real_mul(m, pow2(d) as int);
    let p = pow2(d) as int as real;
    let nr = n as real;
    assert(nr * unit == mr) by (nonlinear_arith)
        requires
            nr == mr * p,
            p * unit == 1real,
    ;
    let q = y / unit;
    let g = y - mr;
    assert((q - nr) * unit == g) by (nonlinear_arith)
        requires
            q == y / unit,
            nr * unit == mr,
            g == y - mr,
            unit > 0real,
    ;
    let t = q - nr;
    assert(-(1real / 2real) <= t <= 1real / 2real) by (nonlinear_arith)
        requires
            t * unit == g,
            -(unit / 2real) <= g <= unit / 2real,
            unit > 0real,
    ;
    lemma_to_even(q, n);
    lemma_double_error(y);
    r
}

/// The error bound of singles, in figures.
pub proof fn lemma_single_error(x: real) -> (y: real)
    requires
        abs(x) <= 0x1_0000_0000_0000_0000_0000_0000int as real,
    ensures
        model::nearest(Format::Single, x) == Val::Fin(y),
        abs(y - x) <= abs(x) / 0x100_0000int as real + 1real / 0x100_0000_0000int as real,
        x >= 0real ==> y >= 0real,
        x <= 0real ==> y <= 0real,
{
    lemma_figures(24);
    lemma_figures(40);
    lemma_figures(96);
    model::lemma_two_pow_increases(96, 127);
    model::lemma_two_pow_increases(96, 97);
    model::lemma_two_pow_increases(97, 127);
    model::lemma_two_pow_increases(-150, -40);
    let y = lemma_error(Format::Single, x);
    let a = abs(x);
    let p = model::two_pow(-24);
    let k = 0x100_0000int as real;
    assert(a * p == a / k) by (nonlinear_arith)
        requires
            p == 1real / k,
            k == 0x100_0000int as real,
    ;
    y
}

/// The error bound of doubles, in figures.
pub proof fn lemma_double_error(x: real) -> (y: real)
    requires
        abs(x) <= 0x1_0000_0000_0000_0000_0000_0000int as real,
    ensures
        model::nearest(Format::Double, x) == Val::Fin(y),
        abs(y - x) <= abs(x) / 0x20_0000_0000_0000int as real + 1real
            / 0x1_0000_0000_0000_0000_0000_0000_0000_0000int as real,
        x >= 0real ==> y >= 0real,
        x <= 0real ==> y <= 0real,
{
    lemma_figures(53);
    lemma_figures(96);
    lemma_figures(128);
    model::lemma_two_pow_increases(96, 1023);
    model::lemma_two_pow_increases(-1075, -128);
    let y = lemma_error(Format::Double, x);
    let a = abs(x);
    let p = model::two_pow(-53);
    let k = 0x20_0000_0000_0000int as real;
    assert(a * p == a / k) by (nonlinear_arith)
        requires
            p == 1real / k,
            k == 0x20_0000_0000_0000int as real,
    ;
    y
}

proof fn lemma_figures(n: nat)
    requires
        n == 24 || n == 40 || n == 53 || n == 96 || n == 128,
    ensures
        model::two_pow(-n) == 1real / pow2(n) as real,
        model::two_pow(n as int) == pow2(n) as real,
        pow2(24) == 0x100_0000,
        pow2(40) == 0x100_0000_0000,
        pow2(53) == 0x20_0000_0000_0000,
        pow2(96) == 0x1_0000_0000_0000_0000_0000_0000,
        pow2(128) == 0x1_0000_0000_0000_0000_0000_0000_0000_0000,
{
    lemma2_to64();
    lemma2_to64_rest();
    lemma_pow2_adds(64, 32);
    lemma_pow2_adds(64, 64);
    model::lemma_two_pow_nat(n);
    model::lemma_two_pow_add(n as int, -n);
    assert(model::two_pow(0) == 1real);
    let (a, b) = (model::two_pow(n as int), model::two_pow(-n));
    assert(b == 1real / a) by (nonlinear_arith)
        requires
            a * b == 1real,
    ;
}

/// A sum that is a number of the format is returned as it is.
pub proof fn lemma_sum(f: Format, a: real, b: real, r: real)
    requires
        a + b == r,
        model::nearest(f, r) == Val::Fin(r),
    ensures
        Val::Fin(a).plus(Val::Fin(b), f) == Val::Fin(r),
{
}

/// A difference that is a number of the format is returned as it is.
pub proof fn lemma_difference(f: Format, a: real, b: real, r: real)
    requires
        a - b == r,
        model::nearest(f, r) == Val::Fin(r),
    ensures
        Val::Fin(a).minus(Val::Fin(b), f) == Val::Fin(r),
{
    assert(a + -b == r);
}

/// A product that is a number of the format is returned as it is.
pub proof fn lemma_product(f: Format, a: real, b: real, r: real)
    requires
        a * b == r,
        model::nearest(f, r) == Val::Fin(r),
    ensures
        Val::Fin(a).times(Val::Fin(b), f) == Val::Fin(r),
{
}

/// A quotient that is a number of the format is returned as it is.
pub proof fn lemma_quotient(f: Format, a: real, b: real, r: real)
    requires
        b != 0real,
        a / b == r,
        model::nearest(f, r) == Val::Fin(r),
    ensures
        Val::Fin(a).over(Val::Fin(b), f) == Val::Fin(r),
{
}

proof fn lemma_root_floor(n: int)
    requires
        n >= 0,
    ensures
        model::root_floor((n * n) as real) == n,
{
    let y = (n * n) as real;
    assert((n + 1) * (n + 1) > n * n) by (nonlinear_arith)
        requires
            n >= 0,
    ;
    let q = model::root_floor(y);
    assert(q >= 0 && (q * q) as real <= y && y < ((q + 1) * (q + 1)) as real) by {
        assert(n >= 0 && (n * n) as real <= y && y < ((n + 1) * (n + 1)) as real);
    }
    assert(q == n) by (nonlinear_arith)
        requires
            q >= 0,
            n >= 0,
            q * q <= n * n,
            n * n < (q + 1) * (q + 1),
    ;
}

/// The square root of the square of a small integer is that integer.
pub proof fn lemma_root_of_square(n: int)
    requires
        0 <= n < 0x400_0000,
    ensures
        Val::Fin((n * n) as real).root(Format::Double) == Val::Fin(n as real),
{
    if n > 0 {
        let len = parts::lemma_some_len(n);
        let k = len - 1;
        let x = (n * n) as real;
        let nr = n as real;
        lemma2_to64();
        lemma2_to64_rest();
        if len > 27 {
            lemma_pow2_strictly_increases(26, (len - 1) as nat);
        }
        model::lemma_two_pow_nat(k as nat);
        model::lemma_two_pow_nat(len);
        model::lemma_real_mul(n, n);
        let (lo, hi) = (model::two_pow(k), model::two_pow(k + 1));
        model::lemma_two_pow_succ(k);
        model::lemma_two_pow_add(k, k);
        model::lemma_two_pow_succ(2 * k);
        model::lemma_two_pow_succ(2 * k + 1);
        assert(lo * lo <= x && x < 4real * (lo * lo)) by (nonlinear_arith)
            requires
                0real < lo <= nr,
                nr < 2real * lo,
                x == nr * nr,
        ;
        if x < model::two_pow(2 * k + 1) {
            model::lemma_binade(x, 2 * k);
        } else {
            model::lemma_binade(x, 2 * k + 1);
        }
        assert(model::binade(x) / 2 == k);
        let e = k - 52;
        let up = (52 - k) as nat;
        let big = n * pow2(up) as int;
        model::lemma_two_pow_nat(up);
        model::lemma_two_pow_add(e, up as int);
        model::lemma_two_pow_add(e, e);
        assert(model::two_pow(0) == 1real);
        let (u, d) = (model::two_pow(up as int), model::two_pow(e));
        assert(d * u == 1real);
        model::lemma_real_mul(n, pow2(up) as int);
        model::lemma_real_mul(big, big);
        let br = big as real;
        assert(br == nr * u);
        model::lemma_two_pow_pos(e);
        let y = x / model::two_pow(2 * e);
        assert(y == br * br) by (nonlinear_arith)
            requires
                x == nr * nr,
                br == nr * u,
                d * u == 1real,
                d > 0real,
                y == x / (d * d),
        ;
        assert(big >= 0) by (nonlinear_arith)
            requires
                big == n * pow2(up),
                n >= 0,
        ;
        lemma_root_floor(big);
        let mid = br + 1real / 2real;
        assert(y <= mid * mid) by (nonlinear_arith)
            requires
                y == br * br,
                mid == br + 1real / 2real,
                br >= 0real,
        ;
        assert(br * d == nr) by (nonlinear_arith)
            requires
                br == nr * u,
                d * u == 1real,
        ;
        assert(x > 0real);
    } else {
        assert(n * n == 0) by (nonlinear_arith)
            requires
                n == 0,
        ;
    }
}

/// The integer part of the root of `n`.
pub proof fn lemma_some_root(n: int) -> (q: int)
    requires
        n >= 0,
    ensures
        q >= 0,
        q * q <= n < (q + 1) * (q + 1),
    decreases n,
{
    if n == 0 {
        0
    } else {
        let q = lemma_some_root(n - 1);
        if (q + 1) * (q + 1) <= n {
            assert(n < (q + 2) * (q + 2)) by (nonlinear_arith)
                requires
                    n - 1 < (q + 1) * (q + 1),
                    q >= 0,
            ;
            q + 1
        } else {
            q
        }
    }
}

/// The square root of a whole number is not rounded over a whole number: it has the
/// integer part of the exact root.
pub proof fn lemma_root_of_whole(n: int, k: int) -> (y: real)
    requires
        0 < n < 0x8_0000_0000_0000,
        k >= 0,
        k * k <= n < (k + 1) * (k + 1),
    ensures
        Val::Fin(n as real).root(Format::Double) == Val::Fin(y),
        k as real <= y,
        y < (k + 1) as real,
{
    let x = n as real;
    lemma_has_binade(x);
    let b = model::binade(x);
    lemma2_to64();
    lemma2_to64_rest();
    assert(b < 51) by {
        if b >= 51 {
            model::lemma_two_pow_nat(51);
            model::lemma_two_pow_increases(51, b);
        }
    }
    assert(b >= 0) by {
        if b < 0 {
            model::lemma_two_pow_increases(b + 1, 0);
            assert(model::two_pow(0) == 1real);
        }
    }
    let e = b / 2 - 52;
    let up = (52 - b / 2) as nat;
    let s = pow2(up) as int;
    model::lemma_two_pow_nat(up);
    model::lemma_two_pow_add(e, up as int);
    model::lemma_two_pow_add(e, e);
    model::lemma_two_pow_pos(e);
    assert(model::two_pow(0) == 1real);
    let (u, d) = (s as real, model::two_pow(e));
    assert(d * u == 1real);
    assert(s >= 0x400_0000) by {
        if up > 26 {
            lemma_pow2_strictly_increases(26, up);
        }
    }
    let y = x / model::two_pow(2 * e);
    let big = n * s * s;
    assert(y == x * u * u) by (nonlinear_arith)
        requires
            d * u == 1real,
            d > 0real,
            y == x / (d * d),
    ;
    model::lemma_real_mul(n, s);
    model::lemma_real_mul(n * s, s);
    assert(y == big as real);
    assert(big >= 0) by (nonlinear_arith)
        requires
            big == n * s * s,
            n >= 0,
            s >= 0,
    ;
    let some = lemma_some_root(big);
    let q = model::root_floor(y);
    assert(q >= 0 && (q * q) as real <= y && y < ((q + 1) * (q + 1)) as real) by {
        assert(some >= 0 && (some * some) as real <= y && y < ((some + 1) * (some + 1)) as real);
    }
    lemma_between_roots(n, k, s, q, big);
    let mid = q as real + 1real / 2real;
    let m = if y <= mid * mid {
        q
    } else {
        q + 1
    };
    if q == (k + 1) * s - 1 {
        assert(k + 1 <= 0x400_0000) by (nonlinear_arith)
            requires
                k * k <= n,
                n < 0x8_0000_0000_0000,
                k >= 0,
        ;
        lemma_below_middle(n, k, s, q, big);
        let qr = q as real;
        model::lemma_real_mul(q, q);
        assert(mid * mid == qr * qr + qr + 1real / 4real) by (nonlinear_arith)
            requires
                mid == qr + 1real / 2real,
        ;
        assert(y <= mid * mid);
    }
    let z = m as real * d;
    assert(k * s <= m <= (k + 1) * s - 1);
    model::lemma_real_mul(k, s);
    model::lemma_real_mul(k + 1, s);
    let (kr, mr) = (k as real, m as real);
    assert(kr <= z && z < kr + 1real) by (nonlinear_arith)
        requires
            kr * u <= mr,
            mr < (kr + 1real) * u,
            d * u == 1real,
            d > 0real,
            z == mr * d,
    ;
    z
}

proof fn lemma_between_roots(n: int, k: int, s: int, q: int, big: int)
    requires
        k >= 0,
        s > 0,
        q >= 0,
        k * k <= n < (k + 1) * (k + 1),
        big == n * s * s,
        q * q <= big < (q + 1) * (q + 1),
    ensures
        k * s <= q <= (k + 1) * s - 1,
{
    let (a, b) = (k * s, (k + 1) * s);
    assert(a * a <= big && big < b * b && a >= 0 && b > 0) by (nonlinear_arith)
        requires
            a == k * s,
            b == (k + 1) * s,
            big == n * s * s,
            k * k <= n < (k + 1) * (k + 1),
            s > 0,
            k >= 0,
    ;
    assert(a <= q) by (nonlinear_arith)
        requires
            a * a < (q + 1) * (q + 1),
            a >= 0,
            q >= 0,
    ;
    assert(q < b) by (nonlinear_arith)
        requires
            q * q < b * b,
            b > 0,
            q >= 0,
    ;
}

proof fn lemma_below_middle(n: int, k: int, s: int, q: int, big: int)
    requires
        k >= 0,
        s >= k + 1,
        n < (k + 1) * (k + 1),
        big == n * s * s,
        q == (k + 1) * s - 1,
    ensures
        big <= q * q + q,
{
    let b = (k + 1) * s;
    assert(big <= b * b - s * s) by (nonlinear_arith)
        requires
            n <= (k + 1) * (k + 1) - 1,
            b == (k + 1) * s,
            big == n * s * s,
            s > 0,
    ;
    assert(q * q + q == b * b - b) by (nonlinear_arith)
        requires
            q == b - 1,
    ;
    assert(b <= s * s) by (nonlinear_arith)
        requires
            b == (k + 1) * s,
            s >= k + 1,
            k >= 0,
    ;
}

} // verus!
