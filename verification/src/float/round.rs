//! Rounding of an exact result to a format.

use crate::float::model;
use crate::float::model::Format;
use vstd::arithmetic::power2::*;
use vstd::bits::*;
use vstd::prelude::*;

verus! {

impl Format {
    pub fn digits_u32(self) -> (r: u32)
        ensures
            r == self.digits(),
    {
        match self {
            Format::Single => 24,
            Format::Double => 53,
        }
    }

    pub fn min_exp_i32(self) -> (r: i32)
        ensures
            r == self.min_exp(),
    {
        match self {
            Format::Single => -149,
            Format::Double => -1074,
        }
    }

    pub fn max_exp_i32(self) -> (r: i32)
        ensures
            r == self.max_exp(),
    {
        match self {
            Format::Single => 104,
            Format::Double => 971,
        }
    }
}

/// Two to the power `s`.
pub(crate) fn shift_one(s: u32) -> (r: u128)
    requires
        s < 128,
    ensures
        r == pow2(s as nat),
        r > 0,
{
    proof {
        lemma2_to64();
        lemma2_to64_rest();
    }
    if s < 64 {
        proof {
            lemma_u64_pow2_no_overflow(s as nat);
            lemma_u64_shl_is_mul(1, s as u64);
            lemma_pow2_pos(s as nat);
        }
        (1u64 << (s as u64)) as u128
    } else {
        let high: u64 = (s - 64) as u64;
        proof {
            lemma_u64_pow2_no_overflow(high as nat);
            lemma_u64_shl_is_mul(1, high);
            lemma_pow2_pos(high as nat);
            lemma_pow2_adds(high as nat, 64);
        }
        (1u64 << high) as u128 * 0x1_0000_0000_0000_0000
    }
}

/// Number of binary digits of `n`.
pub(crate) fn bit_len(n: u128) -> (r: u32)
    requires
        n > 0,
    ensures
        1 <= r <= 128,
        pow2((r - 1) as nat) <= n < pow2(r as nat),
{
    let mut m: u128 = n;
    let mut r: u32 = 0;
    let mut k: u32 = 64;
    proof {
        lemma2_to64();
        lemma_pow2_adds(64, 64);
        assert(pow2(0) == 1);
    }
    while k > 0
        invariant
            k == 0 || k == 1 || k == 2 || k == 4 || k == 8 || k == 16 || k == 32 || k == 64,
            m >= 1,
            r + 2 * k <= 128 || (k == 0 && r <= 127),
            k > 0 ==> m < pow2((2 * k) as nat),
            k == 0 ==> m == 1,
            pow2(r as nat) * m <= n,
            n < pow2(r as nat) * (m + 1),
        decreases k,
    {
        let p: u128 = shift_one(k);
        if m >= p {
            proof {
                lemma_pow2_adds(k as nat, k as nat);
                lemma_pow2_adds(r as nat, k as nat);
                let (pr, pk) = (pow2(r as nat) as int, p as int);
                let q = m as int / pk;
                lemma_pow2_pos(r as nat);
                assert(pk * q <= m && m < pk * (q + 1)) by (nonlinear_arith)
                    requires
                        q == m as int / pk,
                        pk > 0,
                ;
                assert(q >= 1 && q < pk) by (nonlinear_arith)
                    requires
                        pk * q <= m,
                        m < pk * (q + 1),
                        m >= pk,
                        m < pk * pk,
                        pk > 0,
                ;
                assert((pr * pk) * q <= n && n < (pr * pk) * (q + 1)) by (nonlinear_arith)
                    requires
                        pk * q <= m,
                        m + 1 <= pk * (q + 1),
                        pr * m <= n,
                        n < pr * (m + 1),
                        pr > 0,
                ;
            }
            m = m / p;
            r = r + k;
        }
        proof {
            if k == 1 {
                lemma2_to64();
            }
        }
        k = k / 2;
    }
    proof {
        lemma_pow2_unfold((r + 1) as nat);
        let p = pow2(r as nat) as int;
        assert(p * m == p && p * (m + 1) == 2 * p) by (nonlinear_arith)
            requires
                m == 1,
        ;
    }
    r + 1
}

/// The scaled value `t * 2^exp` lies in the binade that the digits of its
/// integer part give.
pub(crate) proof fn lemma_scaled_binade(t: real, man: int, exp: int, len: nat)
    requires
        len >= 1,
        pow2((len - 1) as nat) <= man < pow2(len),
        man as real <= t < (man + 1) as real,
    ensures
        t * model::two_pow(exp) > 0real,
        model::binade(t * model::two_pow(exp)) == exp + len - 1,
        model::two_pow(exp + len - 1) <= t * model::two_pow(exp) < model::two_pow(exp + len),
{
    let u = model::two_pow(exp);
    let x = t * u;
    model::lemma_two_pow_pos(exp);
    model::lemma_two_pow_nat((len - 1) as nat);
    model::lemma_two_pow_nat(len);
    model::lemma_two_pow_add(len - 1, exp);
    model::lemma_two_pow_add(len as int, exp);
    let lo = model::two_pow(len - 1);
    let hi = model::two_pow(len as int);
    model::lemma_two_pow_pos(len - 1);
    assert(lo <= t && t < hi);
    assert(lo * u <= t * u && t * u < hi * u && t * u > 0real) by (nonlinear_arith)
        requires
            0real < lo,
            lo <= t,
            t < hi,
            u > 0real,
    ;
    model::lemma_binade(x, exp + len - 1);
}

/// Half-to-even rounding of `t / d`, given the integer part `man` of `t`.
proof fn lemma_half_even_quotient(t: real, man: int, d: int, exact: bool)
    requires
        d >= 2,
        d % 2 == 0,
        man >= 0,
        man as real <= t < (man + 1) as real,
        exact <==> t == man as real,
    ensures
        ({
            let q = man / d;
            let r = man % d;
            let h = d / 2;
            model::half_even(t / d as real) == if r < h || (r == h && exact && q % 2 == 0) {
                q
            } else {
                q + 1
            }
        }),
{
    let q = man / d;
    let r = man % d;
    let h = d / 2;
    let dr = d as real;
    let y = t / dr;
    assert(d == 2 * h);
    assert(man == d * q + r && 0 <= r < d) by (nonlinear_arith)
        requires
            q == man / d,
            r == man % d,
            d > 0,
    ;
    assert(y * dr == t) by (nonlinear_arith)
        requires
            y == t / dr,
            dr > 0real,
    ;
    let qr = q as real;
    let rr = r as real;
    model::lemma_real_mul(d, q);
    assert(t - dr * qr >= rr && t - dr * qr < rr + 1real);
    let frac = y - qr;
    assert(frac * dr == t - dr * qr) by (nonlinear_arith)
        requires
            frac == y - qr,
            y * dr == t,
    ;
    assert(rr + 1real <= dr);
    assert(0real <= frac && frac < 1real) by (nonlinear_arith)
        requires
            frac * dr >= 0real,
            frac * dr < dr,
            dr > 0real,
    ;
    assert(y.floor() == q);
    let hr = h as real;
    assert(dr == 2real * hr);
    if r < h {
        assert(rr + 1real <= hr);
        assert(frac < 1real / 2real) by (nonlinear_arith)
            requires
                frac * dr < hr,
                dr == 2real * hr,
                dr > 0real,
        ;
    } else if r > h || !exact {
        assert(frac * dr > hr);
        assert(frac > 1real / 2real) by (nonlinear_arith)
            requires
                frac * dr > hr,
                dr == 2real * hr,
                dr > 0real,
        ;
    } else {
        assert(frac * dr == hr);
        assert(frac == 1real / 2real) by (nonlinear_arith)
            requires
                frac * dr == hr,
                dr == 2real * hr,
                dr > 0real,
        ;
    }
}

/// Rounds `x = t * 2^exp`, where `t` has the integer part `man` and a fraction
/// just where `sticky` says so, to the digits that format `f` keeps of it:
/// the returned integer counts units of two to the returned exponent.
#[verifier::spinoff_prover]
pub(crate) fn round_scaled(
    f: Format,
    man: u128,
    exp: i32,
    sticky: bool,
    Ghost(t): Ghost<real>,
) -> (r: (u64, i32))
    requires
        0 < man < 0x8000_0000_0000_0000_0000_0000_0000_0000,
        -6000 <= exp <= 6000,
        man as real <= t < (man + 1) as real,
        sticky <==> t != man as real,
        sticky ==> man >= pow2(f.digits() as nat),
    ensures
        ({
            let x = t * model::two_pow(exp as int);
            &&& x > 0real
            &&& r.1 == model::last_digit(f, x)
            &&& r.0 == model::half_even(x / model::two_pow(r.1 as int))
        }),
        r.0 <= pow2(f.digits() as nat),
        r.1 >= f.min_exp(),
        r.0 < pow2((f.digits() - 1) as nat) ==> r.1 == f.min_exp(),
{
    let ghost x = t * model::two_pow(exp as int);
    let ghost n = man as int;
    assert(n as real <= t && t < (n + 1) as real);
    let len: u32 = bit_len(man);
    let digits: u32 = f.digits_u32();
    let natural: i32 = exp + len as i32 - digits as i32;
    let least: i32 = f.min_exp_i32();
    let e: i32 = if natural < least {
        least
    } else {
        natural
    };
    proof {
        lemma_scaled_binade(t, n, exp as int, len as nat);
        model::lemma_two_pow_pos(e as int);
        model::lemma_two_pow_pos(exp as int);
    }
    if e <= exp {
        let up: u32 = (exp - e) as u32;
        // x is man * 2^up units, and man has at most digits - up digits.
        proof {
            if sticky {
                if len <= digits {
                    lemma_pow2_increases(len as nat, digits as nat);
                }
                assert(len > digits);
            }
            assert(t == man as real);
            lemma_pow2_increases((len + up) as nat, digits as nat);
            lemma_pow2_adds(len as nat, up as nat);
            lemma_pow2_pos(up as nat);
            let (pl, pu) = (pow2(len as nat) as int, pow2(up as nat) as int);
            assert(man * pu < pl * pu) by (nonlinear_arith)
                requires
                    man < pl,
                    pu > 0,
            ;
            lemma2_to64();
            lemma2_to64_rest();
            lemma_pow2_increases(digits as nat, 53);
            lemma_units_up(t, man as int, exp as int, up as nat);
            lemma_pow2_adds((len - 1) as nat, up as nat);
            let pm = pow2((len - 1) as nat) as int;
            assert(man * pu >= pm * pu) by (nonlinear_arith)
                requires
                    man >= pm,
                    pu > 0,
            ;
            if e > least {
                assert(len + up == digits);
            }
        }
        let p: u128 = shift_one(up);
        ((man * p) as u64, e)
    } else {
        let down: u32 = (e - exp) as u32;
        proof {
            lemma_units_down(t, exp as int, down as nat);
            lemma2_to64();
            lemma2_to64_rest();
        }
        if down > len {
            proof {
                // less than half a unit
                lemma_pow2_increases(len as nat, (down - 1) as nat);
                lemma_pow2_unfold(down as nat);
                let d = pow2(down as nat) as int;
                lemma_half_even_quotient(t, n, d, !sticky);
                assert(man < d / 2);
                assert(man as int / d == 0 && man as int % d == man) by (nonlinear_arith)
                    requires
                        0 <= man < d,
                ;
                lemma_pow2_pos(f.digits() as nat);
            }
            (0, e)
        } else {
            proof {
                if len == 128 {
                    lemma_pow2_adds(63, 64);
                }
                assert(len < 128);
            }
            let d: u128 = shift_one(down);
            let q: u128 = man / d;
            let rest: u128 = man % d;
            let half: u128 = d / 2;
            proof {
                lemma_pow2_unfold(down as nat);
                lemma_half_even_quotient(t, n, d as int, !sticky);
                // q has len - down digits, and these are all the digits kept
                lemma_quotient_len(man as int, len as nat, down as nat);
                lemma_pow2_increases((len - down) as nat, digits as nat);
                lemma_pow2_increases(digits as nat, 53);
                if e > least {
                    assert(len - down == digits);
                }
            }
            if rest < half || (rest == half && !sticky && q % 2 == 0) {
                (q as u64, e)
            } else {
                ((q + 1) as u64, e)
            }
        }
    }
}

pub(crate) proof fn lemma_pow2_increases(a: nat, b: nat)
    requires
        a <= b,
    ensures
        pow2(a) <= pow2(b),
{
    if a < b {
        lemma_pow2_strictly_increases(a, b);
    }
}

pub(crate) proof fn lemma_units_up(t: real, man: int, exp: int, up: nat)
    requires
        t == man as real,
        man > 0,
    ensures
        model::half_even((t * model::two_pow(exp)) / model::two_pow(exp - up)) == man * pow2(up),
{
    let u = model::two_pow(exp - up);
    let w = model::two_pow(up as int);
    let x = t * model::two_pow(exp);
    model::lemma_two_pow_add(exp - up, up as int);
    model::lemma_two_pow_nat(up);
    model::lemma_two_pow_pos(exp - up);
    model::lemma_real_mul(man, pow2(up) as int);
    assert(x / u == t * w) by (nonlinear_arith)
        requires
            x == t * (u * w),
            u > 0real,
    ;
}

proof fn lemma_units_down(t: real, exp: int, down: nat)
    ensures
        (t * model::two_pow(exp)) / model::two_pow(exp + down) == t / pow2(down) as real,
{
    let u = model::two_pow(exp);
    let w = model::two_pow(down as int);
    model::lemma_two_pow_add(exp, down as int);
    model::lemma_two_pow_nat(down);
    model::lemma_two_pow_pos(exp);
    model::lemma_two_pow_pos(down as int);
    let y = (t * u) / (u * w);
    let z = t / w;
    assert(y == z) by (nonlinear_arith)
        requires
            y == (t * u) / (u * w),
            z == t / w,
            u > 0real,
            w > 0real,
    ;
}

proof fn lemma_quotient_len(man: int, len: nat, down: nat)
    requires
        len >= 1,
        down <= len,
        pow2((len - 1) as nat) <= man < pow2(len),
    ensures
        man / (pow2(down) as int) < pow2((len - down) as nat),
        down < len ==> man / (pow2(down) as int) >= pow2((len - down - 1) as nat),
{
    let d = pow2(down) as int;
    let q = man / d;
    lemma_pow2_pos(down);
    lemma_pow2_adds((len - down) as nat, down);
    let hi = pow2((len - down) as nat) as int;
    assert(d * q <= man && man < d * (q + 1)) by (nonlinear_arith)
        requires
            q == man / d,
            d > 0,
    ;
    assert(q < hi) by (nonlinear_arith)
        requires
            d * q <= man,
            man < hi * d,
            d > 0,
    ;
    if down < len {
        lemma_pow2_adds((len - down - 1) as nat, down);
        let lo = pow2((len - down - 1) as nat) as int;
        assert(q >= lo) by (nonlinear_arith)
            requires
                man < d * (q + 1),
                man >= lo * d,
                d > 0,
        ;
    }
}

} // verus!
