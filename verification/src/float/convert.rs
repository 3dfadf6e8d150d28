//! Comparison of numbers, and their conversion to integers and back.

use crate::float::model;
use crate::float::model::{Format, Val};
use crate::float::parts;
use crate::float::parts::{round_parts, Parts};
use crate::float::round;
use crate::float::round::shift_one;
use vstd::arithmetic::power2::*;
use vstd::prelude::*;

verus! {

/// Whether the magnitude `am * 2^ae` is less than `bm * 2^be`.
fn less_magnitude(f: Format, am: u64, ae: i32, bm: u64, be: i32) -> (r: bool)
    requires
        (Parts::Num { neg: false, man: am, exp: ae }).wf(f),
        (Parts::Num { neg: false, man: bm, exp: be }).wf(f),
    ensures
        r == (am as real * model::two_pow(ae as int) < bm as real * model::two_pow(be as int)),
{
    proof {
        if ae < be {
            lemma_greater_exponent(f, am as int, ae as int, bm as int, be as int);
        } else if be < ae {
            lemma_greater_exponent(f, bm as int, be as int, am as int, ae as int);
        } else {
            model::lemma_two_pow_pos(ae as int);
            let (a, b, u) = (am as real, bm as real, model::two_pow(ae as int));
            assert(a < b <==> a * u < b * u) by (nonlinear_arith)
                requires
                    u > 0real,
            ;
        }
    }
    ae < be || (ae == be && am < bm)
}

proof fn lemma_greater_exponent(f: Format, am: int, ae: int, bm: int, be: int)
    requires
        0 <= am < 2 * f.fractions(),
        f.fractions() <= bm,
        ae < be,
    ensures
        am as real * model::two_pow(ae) < bm as real * model::two_pow(be),
{
    model::lemma_two_pow_increases(ae + 1, be);
    model::lemma_two_pow_succ(ae);
    model::lemma_two_pow_pos(ae);
    let (a, b, u, v) = (am as real, bm as real, model::two_pow(ae), model::two_pow(be));
    assert(a * u < b * v) by (nonlinear_arith)
        requires
            0real <= a < 2real * b,
            0real < u,
            2real * u <= v,
    ;
}

pub(crate) fn less_parts(f: Format, a: Parts, b: Parts) -> (r: bool)
    requires
        a.wf(f),
        b.wf(f),
    ensures
        r == a@.less(b@),
{
    match (a, b) {
        (Parts::Nan, _) => false,
        (_, Parts::Nan) => false,
        (Parts::Inf { neg: x }, Parts::Inf { neg: y }) => x && !y,
        (Parts::Inf { neg: x }, Parts::Num { neg: _, man: _, exp: _ }) => x,
        (Parts::Num { neg: _, man: _, exp: _ }, Parts::Inf { neg: y }) => !y,
        (Parts::Num { neg: an, man: am, exp: ae }, Parts::Num { neg: bn, man: bm, exp: be }) => {
            proof {
                parts::lemma_scaled_sign(an, am as int, ae as int);
                parts::lemma_scaled_sign(bn, bm as int, be as int);
            }
            if an && bn {
                less_magnitude(f, bm, be, am, ae)
            } else if an {
                am != 0 || bm != 0
            } else if bn {
                false
            } else {
                less_magnitude(f, am, ae, bm, be)
            }
        },
    }
}

/// The number of format `f` nearest to an integer.
pub(crate) fn from_magnitude(f: Format, neg: bool, n: u64) -> (r: Parts)
    ensures
        r.wf(f),
        r@ == model::nearest(
            f,
            if neg {
                -(n as real)
            } else {
                n as real
            },
        ),
{
    proof {
        assert(model::two_pow(0) == 1real);
    }
    if n == 0 {
        proof {
            parts::lemma_scaled_sign(neg, 0, f.min_exp());
        }
        Parts::Num { neg, man: 0, exp: f.min_exp_i32() }
    } else {
        round_parts(f, neg, n as u128, 0, false, Ghost(n as real))
    }
}

/// The integer part of `man * 2^exp` for a negative exponent, whether that is
/// all, and whether the fraction is at least one half.
fn split(man: u64, exp: i32) -> (r: (u64, bool, bool))
    requires
        man < 0x20_0000_0000_0000,
        -1074 <= exp < 0,
    ensures
        ({
            let x = man as real * model::two_pow(exp as int);
            &&& r.0 == x.floor()
            &&& r.0 as real <= x < (r.0 + 1) as real
            &&& r.1 <==> x == r.0 as real
            &&& r.2 <==> x - r.0 as real >= 1real / 2real
        }),
        r.0 <= man,
{
    let s: u32 = (-exp) as u32;
    let ghost x = man as real * model::two_pow(exp as int);
    proof {
        model::lemma_two_pow_pos(exp as int);
        model::lemma_two_pow_add(exp as int, s as int);
        model::lemma_two_pow_nat(s as nat);
        lemma2_to64();
        lemma2_to64_rest();
    }
    if s >= 64 {
        proof {
            parts::lemma_far_rest(man as int, exp + 1, 0);
            model::lemma_two_pow_succ(exp as int);
            assert(model::two_pow(exp + 1 - 0) == model::two_pow(exp + 1));
            let (m, u) = (man as real, model::two_pow(exp as int));
            assert(m * (2real * u) == 2real * (m * u)) by (nonlinear_arith);
        }
        (0, man == 0, false)
    } else {
        let d: u128 = shift_one(s);
        let m: u128 = man as u128;
        let q: u128 = m / d;
        let rest: u128 = m % d;
        proof {
            let (mr, dr, qr, rr, u) = (
                m as real,
                d as real,
                q as real,
                rest as real,
                model::two_pow(exp as int),
            );
            assert(m == d * q + rest && 0 <= rest < d) by (nonlinear_arith)
                requires
                    q == m / d,
                    rest == m % d,
                    d > 0,
            ;
            model::lemma_real_mul(d as int, q as int);
            assert(x == qr + rr * u) by (nonlinear_arith)
                requires
                    x == mr * u,
                    mr == dr * qr + rr,
                    u * dr == 1real,
            ;
            assert(0real <= rr * u && rr * u < 1real && (rr * u == 0real <==> rr == 0real) && (rr * u
                >= 1real / 2real <==> 2real * rr >= dr)) by (nonlinear_arith)
                requires
                    0real <= rr < dr,
                    u * dr == 1real,
                    u > 0real,
            ;
            assert(q <= m) by (nonlinear_arith)
                requires
                    m == d * q + rest,
                    d >= 1,
                    rest >= 0,
                    q >= 0,
            ;
        }
        (q as u64, rest == 0, 2 * rest >= d)
    }
}

/// An integer that fits the format, as a number of it.
fn from_small(f: Format, neg: bool, n: u64) -> (r: Parts)
    requires
        n <= 2 * f.fractions(),
    ensures
        r.wf(f),
        r@ == Val::Fin(
            if neg {
                -(n as real)
            } else {
                n as real
            },
        ),
{
    proof {
        assert(model::two_pow(0) == 1real);
        if n < 2 * f.fractions() {
            parts::lemma_nearest_exact(f, neg, n as int, 0);
        } else {
            parts::lemma_nearest_exact(f, neg, f.fractions(), 1);
            model::lemma_two_pow_succ(0);
        }
    }
    from_magnitude(f, neg, n)
}

/// Every rounding to an integer, from the integer part `q` of a magnitude.
proof fn lemma_roundings(mag: real, q: int, exact: bool, half: bool)
    requires
        0 <= q,
        q as real <= mag < (q + 1) as real,
        exact <==> mag == q as real,
        half <==> mag - q as real >= 1real / 2real,
    ensures
        mag.floor() == q,
        (-mag).floor() == if exact {
            -q
        } else {
            -q - 1
        },
        model::half_away(mag) == if half {
            q + 1
        } else {
            q
        },
        model::half_away(-mag) == if half {
            -q - 1
        } else {
            -q
        },
{
    assert((mag + 1real / 2real).floor() == if half {
        q + 1
    } else {
        q
    });
}

proof fn lemma_integer_value(man: int, exp: int)
    requires
        exp >= 0,
        man >= 0,
    ensures
        ({
            let x = man as real * model::two_pow(exp);
            &&& x.floor() as real == x
            &&& (-x).floor() as real == -x
            &&& model::half_away(x) as real == x
            &&& model::half_away(-x) as real == -x
        }),
{
    model::lemma_two_pow_nat(exp as nat);
    let n = man * pow2(exp as nat);
    model::lemma_real_mul(man, pow2(exp as nat) as int);
    assert(n >= 0) by (nonlinear_arith)
        requires
            n == man * pow2(exp as nat),
            man >= 0,
            pow2(exp as nat) >= 0,
    ;
    lemma_roundings(n as real, n, true, false);
}

pub(crate) fn floor_parts(f: Format, a: Parts) -> (r: Parts)
    requires
        a.wf(f),
    ensures
        r.wf(f),
        r@ == a@.floored(),
{
    match a {
        Parts::Num { neg, man, exp } => {
            if exp >= 0 {
                proof {
                    lemma_integer_value(man as int, exp as int);
                }
                a
            } else {
                let (q, exact, half) = split(man, exp);
                proof {
                    let mag = man as real * model::two_pow(exp as int);
                    lemma_roundings(mag, q as int, exact, half);
                }
                if neg && !exact {
                    from_small(f, true, q + 1)
                } else {
                    from_small(f, neg, q)
                }
            }
        },
        _ => a,
    }
}

pub(crate) fn ceil_parts(f: Format, a: Parts) -> (r: Parts)
    requires
        a.wf(f),
    ensures
        r.wf(f),
        r@ == a@.ceiled(),
{
    match a {
        Parts::Num { neg, man, exp } => {
            if exp >= 0 {
                proof {
                    lemma_integer_value(man as int, exp as int);
                }
                a
            } else {
                let (q, exact, half) = split(man, exp);
                proof {
                    let mag = man as real * model::two_pow(exp as int);
                    lemma_roundings(mag, q as int, exact, half);
                }
                if !neg && !exact {
                    from_small(f, false, q + 1)
                } else {
                    from_small(f, neg, q)
                }
            }
        },
        _ => a,
    }
}

pub(crate) fn round_half_away(f: Format, a: Parts) -> (r: Parts)
    requires
        a.wf(f),
    ensures
        r.wf(f),
        r@ == a@.rounded(),
{
    match a {
        Parts::Num { neg, man, exp } => {
            if exp >= 0 {
                proof {
                    lemma_integer_value(man as int, exp as int);
                }
                a
            } else {
                let (q, exact, half) = split(man, exp);
                proof {
                    let mag = man as real * model::two_pow(exp as int);
                    lemma_roundings(mag, q as int, exact, half);
                }
                if half {
                    from_small(f, neg, q + 1)
                } else {
                    from_small(f, neg, q)
                }
            }
        },
        _ => a,
    }
}

/// The integer part of `man * 2^exp`, or more than `limit` where that is more.
fn whole(man: u64, exp: i32, limit: u64) -> (r: u128)
    requires
        man < 0x20_0000_0000_0000,
        -1074 <= exp <= 971,
    ensures
        ({
            let n = (man as real * model::two_pow(exp as int)).floor();
            if n <= limit {
                r == n
            } else {
                r > limit
            }
        }),
{
    if exp < 0 {
        let (q, _exact, _half) = split(man, exp);
        q as u128
    } else {
        proof {
            model::lemma_two_pow_nat(exp as nat);
            model::lemma_real_mul(man as int, pow2(exp as nat) as int);
            lemma2_to64();
            lemma2_to64_rest();
        }
        if man == 0 {
            0
        } else if exp >= 64 {
            proof {
                round::lemma_pow2_increases(64, exp as nat);
                let p = pow2(exp as nat) as int;
                assert(man * p >= p) by (nonlinear_arith)
                    requires
                        man >= 1,
                        p > 0,
                ;
            }
            0x1_0000_0000_0000_0000
        } else {
            let p: u128 = shift_one(exp as u32);
            proof {
                parts::lemma_near_bound(man as int, exp as nat);
            }
            (man as u128) * p
        }
    }
}

/// Conversion to an unsigned integer up to `limit`.
pub(crate) fn to_unsigned(f: Format, a: Parts, limit: u64) -> (r: u64)
    requires
        a.wf(f),
    ensures
        r == model::to_int(a@, 0, limit as int),
{
    match a {
        Parts::Nan => 0,
        Parts::Inf { neg } => if neg {
            0
        } else {
            limit
        },
        Parts::Num { neg, man, exp } => {
            let n: u128 = whole(man, exp, limit);
            proof {
                parts::lemma_scaled_sign(neg, man as int, exp as int);
            }
            if neg {
                0
            } else if n > limit as u128 {
                limit
            } else {
                n as u64
            }
        },
    }
}

/// Conversion to a signed integer from `-limit - 1` up to `limit`.
pub(crate) fn to_signed(f: Format, a: Parts, limit: i64) -> (r: i64)
    requires
        a.wf(f),
        limit >= 0,
    ensures
        r == model::to_int(a@, -limit - 1, limit as int),
{
    match a {
        Parts::Nan => 0,
        Parts::Inf { neg } => if neg {
            -limit - 1
        } else {
            limit
        },
        Parts::Num { neg, man, exp } => {
            let n: u128 = whole(man, exp, limit as u64);
            proof {
                parts::lemma_scaled_sign(neg, man as int, exp as int);
            }
            if neg {
                if n > limit as u128 {
                    -limit - 1
                } else {
                    -(n as i64)
                }
            } else if n > limit as u128 {
                limit
            } else {
                n as i64
            }
        },
    }
}

/// The number of format `to` nearest to a number of format `from`.
pub(crate) fn convert_parts(from: Format, to: Format, a: Parts) -> (r: Parts)
    requires
        a.wf(from),
    ensures
        r.wf(to),
        r@ == a@.fitted(to),
{
    match a {
        Parts::Num { neg, man, exp } => {
            proof {
                parts::lemma_scaled_sign(neg, man as int, exp as int);
                parts::lemma_scaled_sign(neg, 0, to.min_exp());
            }
            if man == 0 {
                Parts::Num { neg, man: 0, exp: to.min_exp_i32() }
            } else {
                round_parts(to, neg, man as u128, exp, false, Ghost(man as real))
            }
        },
        _ => a,
    }
}

} // verus!
