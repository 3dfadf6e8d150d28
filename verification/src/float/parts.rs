//! A floating point number taken apart, and the arithmetic on the parts.

use crate::float::model;
use crate::float::model::{Format, Val};
use crate::float::round;
use crate::float::round::{bit_len, round_scaled, shift_one};
use vstd::arithmetic::power2::*;
use vstd::prelude::*;

verus! {

/// A number as sign, integer significand and exponent.
#[derive(Clone, Copy)]
pub enum Parts {
    Nan,
    Inf { neg: bool },
    Num { neg: bool, man: u64, exp: i32 },
}

/// `man * 2^exp` with the given sign.
pub open spec fn scaled(neg: bool, man: int, exp: int) -> real {
    let mag = man as real * model::two_pow(exp);
    if neg {
        -mag
    } else {
        mag
    }
}

impl View for Parts {
    type V = Val;

    open spec fn view(&self) -> Val {
        match *self {
            Parts::Nan => Val::Nan,
            Parts::Inf { neg } => if neg {
                Val::NegInf
            } else {
                Val::PosInf
            },
            Parts::Num { neg, man, exp } => Val::Fin(scaled(neg, man as int, exp as int)),
        }
    }
}

impl Parts {
    /// The significand has the digits of format `f`, fewer of them only at the
    /// least exponent.
    pub open spec fn wf(self, f: Format) -> bool {
        match self {
            Parts::Num { neg, man, exp } => {
                &&& man < 2 * f.fractions()
                &&& f.min_exp() <= exp <= f.max_exp()
                &&& man < f.fractions() ==> exp == f.min_exp()
            },
            _ => true,
        }
    }
}

proof fn lemma_format_powers(f: Format)
    ensures
        pow2(f.digits() as nat) == 2 * f.fractions(),
        pow2((f.digits() - 1) as nat) == f.fractions(),
{
    lemma2_to64();
    lemma2_to64_rest();
}

impl Format {
    fn fractions_u64(self) -> (r: u64)
        ensures
            r == self.fractions(),
    {
        match self {
            Format::Single => 0x80_0000,
            Format::Double => 0x10_0000_0000_0000,
        }
    }

    fn fields_u64(self) -> (r: u64)
        ensures
            r == self.fields(),
    {
        match self {
            Format::Single => 0x100,
            Format::Double => 0x800,
        }
    }
}

/// Takes the number with the bit pattern `bits` apart.
pub(crate) fn unpack(f: Format, bits: u64) -> (r: Parts)
    requires
        bits < 2 * f.fields() * f.fractions(),
    ensures
        r@ == model::decode(f, bits as int),
        r.wf(f),
{
    let fractions: u64 = f.fractions_u64();
    let fields: u64 = f.fields_u64();
    let frac: u64 = bits % fractions;
    let field: u64 = (bits / fractions) % fields;
    let neg: bool = bits >= fractions * fields;
    if field == fields - 1 {
        if frac != 0 {
            Parts::Nan
        } else {
            Parts::Inf { neg }
        }
    } else if field == 0 {
        Parts::Num { neg, man: frac, exp: f.min_exp_i32() }
    } else {
        Parts::Num { neg, man: fractions + frac, exp: f.min_exp_i32() + (field as i32) - 1 }
    }
}

/// The bit pattern of a number.
pub(crate) fn pack(f: Format, p: Parts) -> (r: u64)
    requires
        p.wf(f),
    ensures
        r < 2 * f.fields() * f.fractions(),
        model::decode(f, r as int) == p@,
{
    let fractions: u64 = f.fractions_u64();
    let fields: u64 = f.fields_u64();
    let sign: u64 = fractions * fields;
    match p {
        Parts::Nan => {
            proof {
                lemma_fields(f, fields - 1, fractions as int / 2, false);
            }
            (fields - 1) * fractions + fractions / 2
        },
        Parts::Inf { neg } => {
            proof {
                lemma_fields(f, fields - 1, 0, neg);
            }
            if neg {
                sign + (fields - 1) * fractions
            } else {
                (fields - 1) * fractions
            }
        },
        Parts::Num { neg, man, exp } => {
            let step: u64 = (exp - f.min_exp_i32()) as u64;
            proof {
                if man < fractions {
                    lemma_fields(f, 0, man as int, neg);
                } else {
                    lemma_fields(f, step + 1, man - fractions, neg);
                }
            }
            if neg {
                sign + step * fractions + man
            } else {
                step * fractions + man
            }
        },
    }
}

proof fn lemma_fields(f: Format, field: int, frac: int, neg: bool)
    requires
        0 <= field < f.fields(),
        0 <= frac < f.fractions(),
    ensures
        ({
            let bits = (if neg {
                f.fields() * f.fractions()
            } else {
                0
            }) + field * f.fractions() + frac;
            &&& bits % f.fractions() == frac
            &&& (bits / f.fractions()) % f.fields() == field
            &&& (bits >= f.fractions() * f.fields()) == neg
        }),
{
}

/// Two to the power of the digits of a product or quotient of powers.
pub(crate) proof fn lemma_shifted(m: int, exp: int, up: nat)
    ensures
        m as real * model::two_pow(exp + up) == (m * pow2(up)) as real * model::two_pow(exp),
{
    model::lemma_two_pow_add(exp, up as int);
    model::lemma_two_pow_nat(up);
    model::lemma_real_mul(m, pow2(up) as int);
    let (a, b, c) = (m as real, model::two_pow(exp), model::two_pow(up as int));
    assert(a * (b * c) == (a * c) * b) by (nonlinear_arith);
}

/// The number of format `f` nearest to `t * 2^exp` with the given sign, where
/// `t` has the integer part `man` and a fraction just where `sticky` says so.
pub(crate) fn round_parts(
    f: Format,
    neg: bool,
    man: u128,
    exp: i32,
    sticky: bool,
    Ghost(t): Ghost<real>,
) -> (r: Parts)
    requires
        0 < man < 0x8000_0000_0000_0000_0000_0000_0000_0000,
        -6000 <= exp <= 6000,
        man as real <= t < (man + 1) as real,
        sticky <==> t != man as real,
        sticky ==> man >= 2 * f.fractions(),
    ensures
        r.wf(f),
        r@ == model::nearest(
            f,
            if neg {
                -(t * model::two_pow(exp as int))
            } else {
                t * model::two_pow(exp as int)
            },
        ),
{
    proof {
        lemma_format_powers(f);
    }
    let (m, e) = round_scaled(f, man, exp, sticky, Ghost(t));
    let fractions: u64 = f.fractions_u64();
    let top: i32 = f.max_exp_i32();
    let ghost x = t * model::two_pow(exp as int);
    let ghost unit = model::two_pow(e as int);
    proof {
        assert(model::round_digits(f, x) == m as real * unit);
        model::lemma_two_pow_pos(e as int);
        model::lemma_two_pow_pos(top as int);
        model::lemma_two_pow_add(top as int, f.digits());
        model::lemma_two_pow_nat(f.digits() as nat);
        let p = model::two_pow(f.digits());
        let pt = model::two_pow(top as int);
        if e > top {
            model::lemma_two_pow_increases(top + 1, e as int);
            model::lemma_two_pow_succ(top as int);
            assert(m as real * unit >= pt * p) by (nonlinear_arith)
                requires
                    unit >= 2real * pt,
                    2real * (m as real) >= p,
                    pt > 0real,
                    p > 0real,
            ;
        } else if e == top && m == 2 * fractions {
            assert(m as real * unit >= pt * p) by (nonlinear_arith)
                requires
                    unit == pt,
                    m as real == p,
            ;
        } else if e == top {
            assert(m as real * unit < pt * p) by (nonlinear_arith)
                requires
                    unit == pt,
                    pt > 0real,
                    (m as real) < p,
            ;
        } else {
            model::lemma_two_pow_increases(e as int, top as int);
            assert(m as real * unit < pt * p) by (nonlinear_arith)
                requires
                    0real < unit < pt,
                    (m as real) <= p,
                    p > 0real,
            ;
        }
    }
    if e > top || (e == top && m == 2 * fractions) {
        Parts::Inf { neg }
    } else if m == 2 * fractions {
        proof {
            lemma2_to64();
            lemma_shifted(fractions as int, e as int, 1);
        }
        Parts::Num { neg, man: fractions, exp: e + 1 }
    } else {
        Parts::Num { neg, man: m, exp: e }
    }
}

/// The sum of two numbers with exponents at most 72 apart.
fn add_near(f: Format, an: bool, am: u64, ae: i32, bn: bool, bm: u64, be: i32) -> (r: Parts)
    requires
        (Parts::Num { neg: an, man: am, exp: ae }).wf(f),
        (Parts::Num { neg: bn, man: bm, exp: be }).wf(f),
        be <= ae <= be + 72,
    ensures
        r.wf(f),
        r@ == model::nearest(
            f,
            scaled(an, am as int, ae as int) + scaled(bn, bm as int, be as int),
        ),
{
    let diff: u32 = (ae - be) as u32;
    let p: u128 = shift_one(diff);
    let ghost unit = model::two_pow(be as int);
    proof {
        lemma_shifted(am as int, be as int, diff as nat);
        lemma_near_bound(am as int, diff as nat);
    }
    let big: u128 = (am as u128) * p;
    let small: u128 = bm as u128;
    if an == bn {
        let man: u128 = big + small;
        proof {
            lemma_distribute(big as int, small as int, unit);
        }
        if man == 0 {
            Parts::Num { neg: false, man: 0, exp: f.min_exp_i32() }
        } else {
            round_parts(f, an, man, be, false, Ghost(man as real))
        }
    } else if big == small {
        Parts::Num { neg: false, man: 0, exp: f.min_exp_i32() }
    } else if big > small {
        let man: u128 = big - small;
        proof {
            lemma_distribute(man as int, small as int, unit);
        }
        round_parts(f, an, man, be, false, Ghost(man as real))
    } else {
        let man: u128 = small - big;
        proof {
            lemma_distribute(man as int, big as int, unit);
        }
        round_parts(f, bn, man, be, false, Ghost(man as real))
    }
}

pub(crate) proof fn lemma_near_bound(m: int, diff: nat)
    requires
        0 <= m < 0x20_0000_0000_0000,
        diff <= 72,
    ensures
        0 <= m * pow2(diff) <= 0x1f_ffff_ffff_ffff * 0x100_0000_0000_0000_0000,
{
    lemma2_to64();
    lemma2_to64_rest();
    if diff < 72 {
        lemma_pow2_strictly_increases(diff, 72);
    }
    lemma_pow2_adds(64, 8);
    let p = pow2(diff) as int;
    assert(0 <= m * p <= 0x1f_ffff_ffff_ffff * 0x100_0000_0000_0000_0000) by (nonlinear_arith)
        requires
            0 <= m <= 0x1f_ffff_ffff_ffff,
            0 <= p <= 0x100_0000_0000_0000_0000,
    ;
}

/// What a number comes to in units far above its last digit: less than one.
pub(crate) proof fn lemma_far_rest(m: int, exp: int, unit: int)
    requires
        0 <= m < 0x20_0000_0000_0000,
        exp + 53 <= unit,
    ensures
        ({
            let rest = m as real * model::two_pow(exp - unit);
            &&& rest * model::two_pow(unit) == m as real * model::two_pow(exp)
            &&& 0real <= rest < 1real
            &&& rest == 0real <==> m == 0
        }),
{
    let (g, w, u) = (m as real, model::two_pow(exp - unit), model::two_pow(unit));
    model::lemma_two_pow_add(exp - unit, unit);
    assert((g * w) * u == g * (w * u)) by (nonlinear_arith);
    model::lemma_two_pow_pos(exp - unit);
    model::lemma_two_pow_increases(exp - unit, -53);
    model::lemma_two_pow_add(-53, 53);
    model::lemma_two_pow_nat(53);
    lemma2_to64();
    lemma2_to64_rest();
    let c = model::two_pow(-53);
    assert(0real <= g * w && g * w < 1real && (g > 0real ==> g * w > 0real) && (g == 0real ==> g * w
        == 0real)) by (nonlinear_arith)
        requires
            0real <= g,
            g < 9007199254740992real,
            0real < w,
            w <= c,
            c * 9007199254740992real == 1real,
    ;
}

/// The sum of two numbers with exponents more than 72 apart.
fn add_far(f: Format, an: bool, am: u64, ae: i32, bn: bool, bm: u64, be: i32) -> (r: Parts)
    requires
        (Parts::Num { neg: an, man: am, exp: ae }).wf(f),
        (Parts::Num { neg: bn, man: bm, exp: be }).wf(f),
        be + 72 < ae,
    ensures
        r.wf(f),
        r@ == model::nearest(
            f,
            scaled(an, am as int, ae as int) + scaled(bn, bm as int, be as int),
        ),
{
    let base: u128 = (am as u128) * 0x10_0000;
    let exp: i32 = ae - 20;
    let ghost unit = model::two_pow(exp as int);
    let ghost rest = bm as real * model::two_pow(be - exp);
    proof {
        lemma2_to64();
        lemma_shifted(am as int, exp as int, 20);
        lemma_far_rest(bm as int, be as int, exp as int);
        assert(am >= f.fractions());
    }
    if an == bn {
        let ghost t = base as real + rest;
        proof {
            assert(t * unit == base as real * unit + rest * unit) by (nonlinear_arith)
                requires
                    t == base as real + rest,
            ;
        }
        round_parts(f, an, base, exp, bm != 0, Ghost(t))
    } else {
        let ghost t = base as real - rest;
        proof {
            assert(t * unit == base as real * unit - rest * unit) by (nonlinear_arith)
                requires
                    t == base as real - rest,
            ;
        }
        if bm == 0 {
            round_parts(f, an, base, exp, false, Ghost(t))
        } else {
            round_parts(f, an, base - 1, exp, true, Ghost(t))
        }
    }
}

/// The sum of two numbers, the first with the greater exponent.
fn add_ordered(f: Format, an: bool, am: u64, ae: i32, bn: bool, bm: u64, be: i32) -> (r: Parts)
    requires
        (Parts::Num { neg: an, man: am, exp: ae }).wf(f),
        (Parts::Num { neg: bn, man: bm, exp: be }).wf(f),
        ae >= be,
    ensures
        r.wf(f),
        r@ == model::nearest(
            f,
            scaled(an, am as int, ae as int) + scaled(bn, bm as int, be as int),
        ),
{
    if ae - be <= 72 {
        add_near(f, an, am, ae, bn, bm, be)
    } else {
        add_far(f, an, am, ae, bn, bm, be)
    }
}

proof fn lemma_distribute(a: int, b: int, u: real)
    ensures
        (a + b) as real * u == a as real * u + b as real * u,
{
    let (x, y) = (a as real, b as real);
    assert((x + y) * u == x * u + y * u) by (nonlinear_arith);
}

pub(crate) fn add_parts(f: Format, a: Parts, b: Parts) -> (r: Parts)
    requires
        a.wf(f),
        b.wf(f),
    ensures
        r.wf(f),
        r@ == a@.plus(b@, f),
{
    match (a, b) {
        (Parts::Nan, _) => Parts::Nan,
        (_, Parts::Nan) => Parts::Nan,
        (Parts::Num { neg: an, man: am, exp: ae }, Parts::Num { neg: bn, man: bm, exp: be }) => {
            if ae >= be {
                add_ordered(f, an, am, ae, bn, bm, be)
            } else {
                add_ordered(f, bn, bm, be, an, am, ae)
            }
        },
        (Parts::Inf { neg: x }, Parts::Inf { neg: y }) => if x == y {
            a
        } else {
            Parts::Nan
        },
        (Parts::Inf { neg: _ }, _) => a,
        (_, Parts::Inf { neg: _ }) => b,
    }
}

/// A significand that fits the format is kept whole.
pub(crate) proof fn lemma_nearest_exact(f: Format, neg: bool, man: int, exp: int)
    requires
        0 <= man < 2 * f.fractions(),
        f.min_exp() <= exp <= f.max_exp(),
    ensures
        model::nearest(f, scaled(neg, man, exp)) == Val::Fin(scaled(neg, man, exp)),
{
    let x = man as real * model::two_pow(exp);
    lemma_format_powers(f);
    lemma_scaled_sign(neg, man, exp);
    if man > 0 {
        let len = lemma_some_len(man);
        round::lemma_scaled_binade(man as real, man, exp, len);
        if len > f.digits() {
            round::lemma_pow2_increases(f.digits() as nat, (len - 1) as nat);
        }
        let e = model::last_digit(f, x);
        assert(e <= exp);
        round::lemma_units_up(man as real, man, exp, (exp - e) as nat);
        lemma_shifted(man, e, (exp - e) as nat);
        assert(model::round_digits(f, x) == x);
        model::lemma_two_pow_increases(exp, f.max_exp());
        model::lemma_two_pow_add(f.max_exp(), f.digits());
        model::lemma_two_pow_nat(f.digits() as nat);
        model::lemma_two_pow_pos(exp);
        let (m, u, t, p) = (
            man as real,
            model::two_pow(exp),
            model::two_pow(f.max_exp()),
            model::two_pow(f.digits()),
        );
        assert(m * u < t * p && m * u > 0real) by (nonlinear_arith)
            requires
                0real < m < p,
                0real < u <= t,
        ;
    }
}

/// The number of binary digits of a positive integer.
pub(crate) proof fn lemma_some_len(n: int) -> (len: nat)
    requires
        n > 0,
    ensures
        len >= 1,
        pow2((len - 1) as nat) <= n < pow2(len),
    decreases n,
{
    lemma2_to64();
    if n == 1 {
        1
    } else {
        let len = lemma_some_len(n / 2);
        lemma_pow2_unfold((len + 1) as nat);
        lemma_pow2_unfold(len);
        len + 1
    }
}

pub(crate) proof fn lemma_scaled_sign(neg: bool, man: int, exp: int)
    requires
        man >= 0,
    ensures
        man == 0 ==> scaled(neg, man, exp) == 0real,
        man > 0 ==> if neg {
            scaled(neg, man, exp) < 0real
        } else {
            scaled(neg, man, exp) > 0real
        },
{
    model::lemma_two_pow_pos(exp);
    let (m, u) = (man as real, model::two_pow(exp));
    assert((m > 0real ==> m * u > 0real) && (m == 0real ==> m * u == 0real)) by (nonlinear_arith)
        requires
            u > 0real,
    ;
}

proof fn lemma_scaled_product(an: bool, am: int, ae: int, bn: bool, bm: int, be: int)
    ensures
        scaled(an, am, ae) * scaled(bn, bm, be) == scaled(an != bn, am * bm, ae + be),
{
    model::lemma_two_pow_add(ae, be);
    model::lemma_real_mul(am, bm);
    let (a, x, b, y) = (am as real, model::two_pow(ae), bm as real, model::two_pow(be));
    assert((a * x) * (b * y) == (a * b) * (x * y)) by (nonlinear_arith);
    let (u, v) = (a * x, b * y);
    assert((-u) * v == -(u * v) && u * (-v) == -(u * v) && (-u) * (-v) == u * v)
        by (nonlinear_arith);
}

pub(crate) fn mul_parts(f: Format, a: Parts, b: Parts) -> (r: Parts)
    requires
        a.wf(f),
        b.wf(f),
    ensures
        r.wf(f),
        r@ == a@.times(b@, f),
{
    match (a, b) {
        (Parts::Nan, _) => Parts::Nan,
        (_, Parts::Nan) => Parts::Nan,
        (Parts::Num { neg: an, man: am, exp: ae }, Parts::Num { neg: bn, man: bm, exp: be }) => {
            proof {
                lemma_scaled_product(an, am as int, ae as int, bn, bm as int, be as int);
                lemma_scaled_sign(an != bn, am * bm, ae + be);
                lemma_scaled_sign(an != bn, 0, f.min_exp());
                assert(0 <= am * bm <= 0x1f_ffff_ffff_ffff * 0x1f_ffff_ffff_ffff)
                    by (nonlinear_arith)
                    requires
                        0 <= am <= 0x1f_ffff_ffff_ffff,
                        0 <= bm <= 0x1f_ffff_ffff_ffff,
                ;
            }
            let man: u128 = (am as u128) * (bm as u128);
            if man == 0 {
                Parts::Num { neg: an != bn, man: 0, exp: f.min_exp_i32() }
            } else {
                round_parts(f, an != bn, man, ae + be, false, Ghost(man as real))
            }
        },
        (Parts::Inf { neg: x }, Parts::Inf { neg: y }) => {
            assert(a@.sign() * b@.sign() == if x == y {
                1int
            } else {
                -1int
            });
            Parts::Inf { neg: x != y }
        },
        (Parts::Inf { neg: x }, Parts::Num { neg: y, man, exp }) => {
            proof {
                lemma_scaled_sign(y, man as int, exp as int);
                assert(a@.sign() * b@.sign() == if x {
                    -b@.sign()
                } else {
                    b@.sign()
                });
            }
            if man == 0 {
                Parts::Nan
            } else {
                Parts::Inf { neg: x != y }
            }
        },
        (Parts::Num { neg: y, man, exp }, Parts::Inf { neg: x }) => {
            proof {
                lemma_scaled_sign(y, man as int, exp as int);
                assert(a@.sign() * b@.sign() == if x {
                    -a@.sign()
                } else {
                    a@.sign()
                });
            }
            if man == 0 {
                Parts::Nan
            } else {
                Parts::Inf { neg: x != y }
            }
        },
    }
}

/// The quotient of two numbers that are not zero.
#[verifier::spinoff_prover]
fn div_nums(f: Format, an: bool, am: u64, ae: i32, bn: bool, bm: u64, be: i32) -> (r: Parts)
    requires
        (Parts::Num { neg: an, man: am, exp: ae }).wf(f),
        (Parts::Num { neg: bn, man: bm, exp: be }).wf(f),
        am > 0,
        bm > 0,
    ensures
        r.wf(f),
        r@ == model::nearest(
            f,
            scaled(an, am as int, ae as int) / scaled(bn, bm as int, be as int),
        ),
{
    proof {
        lemma2_to64();
        lemma2_to64_rest();
    }
    let len: u32 = bit_len(am as u128);
    proof {
        if len > 53 {
            round::lemma_pow2_increases(53, (len - 1) as nat);
        }
        lemma_pow2_adds(len as nat, (123 - len) as nat);
        lemma_pow2_adds((len - 1) as nat, (123 - len) as nat);
        lemma_pow2_adds(64, 59);
        lemma_pow2_adds(64, 58);
    }
    let up: u32 = 123 - len;
    let p: u128 = shift_one(up);
    proof {
        let (lo, hi) = (pow2((len - 1) as nat) as int, pow2(len as nat) as int);
        assert(lo * p <= am * p && am * p < hi * p) by (nonlinear_arith)
            requires
                lo <= am < hi,
                p > 0,
        ;
    }
    let n: u128 = (am as u128) * p;
    let d: u128 = bm as u128;
    let q: u128 = n / d;
    let rest: u128 = n % d;
    let exp: i32 = ae - up as i32 - be;
    let ghost t = n as real / d as real;
    proof {
        lemma_shifted(am as int, ae - up, up as nat);
        lemma_quotient(n as int, ae - up, d as int, be as int);
        assert(n == d * q + rest && 0 <= rest < d) by (nonlinear_arith)
            requires
                q == n / d,
                rest == n % d,
                d > 0,
        ;
        model::lemma_real_mul(d as int, q as int);
        let (nr, dr, qr, rr) = (n as real, d as real, q as real, rest as real);
        assert(qr <= t && t < qr + 1real && (t == qr <==> rr == 0real)) by (nonlinear_arith)
            requires
                t == nr / dr,
                nr == dr * qr + rr,
                0real <= rr < dr,
        ;
        assert(q >= 0x40_0000_0000_0000) by (nonlinear_arith)
            requires
                n == d * q + rest,
                rest < d,
                d < 0x20_0000_0000_0000,
                n >= 0x400_0000_0000_0000 * 0x1_0000_0000_0000_0000,
                d > 0,
        ;
        assert(q <= n) by (nonlinear_arith)
            requires
                n == d * q + rest,
                rest >= 0,
                q >= 0,
                d >= 1,
        ;
        lemma_scaled_sign(false, bm as int, be as int);
        let (num, den) = (
            am as real * model::two_pow(ae as int),
            bm as real * model::two_pow(be as int),
        );
        lemma_quotient_sign(an, num, bn, den);
        assert(ae - up + up == ae);
        assert(num == n as real * model::two_pow(ae - up));
        assert(num / den == t * model::two_pow(exp as int));
        assert(scaled(an, am as int, ae as int) / scaled(bn, bm as int, be as int) == if an != bn {
            -(t * model::two_pow(exp as int))
        } else {
            t * model::two_pow(exp as int)
        });
    }
    round_parts(f, an != bn, q, exp, rest != 0, Ghost(t))
}

proof fn lemma_quotient(n: int, a: int, d: int, b: int)
    requires
        d > 0,
    ensures
        (n as real * model::two_pow(a)) / (d as real * model::two_pow(b)) == (n as real / d as real)
            * model::two_pow(a - b),
{
    model::lemma_two_pow_add(a - b, b);
    model::lemma_two_pow_pos(b);
    let (nr, dr, e, y) = (n as real, d as real, model::two_pow(a - b), model::two_pow(b));
    let t = nr / dr;
    let den = dr * y;
    assert(nr == t * dr) by (nonlinear_arith)
        requires
            t == nr / dr,
            dr > 0real,
    ;
    assert(den > 0real) by (nonlinear_arith)
        requires
            den == dr * y,
            dr > 0real,
            y > 0real,
    ;
    assert(nr * (e * y) == (t * e) * den) by (nonlinear_arith)
        requires
            nr == t * dr,
            den == dr * y,
    ;
    assert((nr * (e * y)) / den == t * e) by (nonlinear_arith)
        requires
            nr * (e * y) == (t * e) * den,
            den > 0real,
    ;
}

proof fn lemma_quotient_sign(an: bool, a: real, bn: bool, b: real)
    requires
        b > 0real,
    ensures
        (if an {
            -a
        } else {
            a
        }) / (if bn {
            -b
        } else {
            b
        }) == if an != bn {
            -(a / b)
        } else {
            a / b
        },
{
    let q = a / b;
    assert(a == q * b) by (nonlinear_arith)
        requires
            q == a / b,
            b > 0real,
    ;
    assert((-a) / b == -q) by (nonlinear_arith)
        requires
            a == q * b,
            b > 0real,
    ;
    assert(a / (-b) == -q) by (nonlinear_arith)
        requires
            a == q * b,
            b > 0real,
    ;
    assert((-a) / (-b) == q) by (nonlinear_arith)
        requires
            a == q * b,
            b > 0real,
    ;
}

/// The quotient; a zero divisor is taken as the positive zero.
pub(crate) fn div_parts(f: Format, a: Parts, b: Parts) -> (r: Parts)
    requires
        a.wf(f),
        b.wf(f),
    ensures
        r.wf(f),
        r@ == a@.over(b@, f),
{
    match (a, b) {
        (Parts::Nan, _) => Parts::Nan,
        (_, Parts::Nan) => Parts::Nan,
        (Parts::Num { neg: an, man: am, exp: ae }, Parts::Num { neg: bn, man: bm, exp: be }) => {
            proof {
                lemma_scaled_sign(an, am as int, ae as int);
                lemma_scaled_sign(bn, bm as int, be as int);
            }
            if bm == 0 {
                if am == 0 {
                    Parts::Nan
                } else {
                    Parts::Inf { neg: an }
                }
            } else if am == 0 {
                proof {
                    let y = scaled(bn, bm as int, be as int);
                    assert(0real / y == 0real) by (nonlinear_arith)
                        requires
                            y != 0real,
                    ;
                }
                Parts::Num { neg: an != bn, man: 0, exp: f.min_exp_i32() }
            } else {
                div_nums(f, an, am, ae, bn, bm, be)
            }
        },
        (Parts::Num { neg: x, man: _, exp: _ }, Parts::Inf { neg: y }) => Parts::Num {
            neg: x != y,
            man: 0,
            exp: f.min_exp_i32(),
        },
        (Parts::Inf { neg: x }, Parts::Num { neg: y, man, exp }) => {
            proof {
                lemma_scaled_sign(y, man as int, exp as int);
            }
            if man == 0 {
                Parts::Inf { neg: x }
            } else {
                Parts::Inf { neg: x != y }
            }
        },
        (Parts::Inf { neg: _ }, Parts::Inf { neg: _ }) => Parts::Nan,
    }
}

} // verus!
