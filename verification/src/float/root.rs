//! The square root.

use crate::float::model;
use crate::float::model::Format;
use crate::float::parts;
use crate::float::parts::Parts;
use crate::float::round;
use crate::float::round::{bit_len, shift_one};
use vstd::arithmetic::power2::*;
use vstd::prelude::*;

verus! {

/// The integer part of the square root of an integer.
fn int_root(n: u128) -> (q: u64)
    requires
        n < 0x400_0000_0000 * 0x1_0000_0000_0000_0000,
    ensures
        q * q <= n < (q + 1) * (q + 1),
        q < 0x20_0000_0000_0000,
{
    let mut lo: u64 = 0;
    let mut hi: u64 = 0x20_0000_0000_0000;
    while hi - lo > 1
        invariant
            lo < hi <= 0x20_0000_0000_0000,
            lo * lo <= n < hi * hi,
        decreases hi - lo,
    {
        let mid: u64 = lo + (hi - lo) / 2;
        proof {
            assert(0 <= mid * mid <= 0x20_0000_0000_0000 * 0x20_0000_0000_0000) by (nonlinear_arith)
                requires
                    0 <= mid <= 0x20_0000_0000_0000,
            ;
        }
        if (mid as u128) * (mid as u128) <= n {
            lo = mid;
        } else {
            hi = mid;
        }
    }
    lo
}

proof fn lemma_root_floor(y: real, q: int)
    requires
        q >= 0,
        (q * q) as real <= y < ((q + 1) * (q + 1)) as real,
    ensures
        model::root_floor(y) == q,
{
    let p = model::root_floor(y);
    assert(p >= 0 && (p * p) as real <= y && y < ((p + 1) * (p + 1)) as real);
    assert(p * p < (q + 1) * (q + 1) && q * q < (p + 1) * (p + 1));
    assert(p == q) by (nonlinear_arith)
        requires
            p >= 0,
            q >= 0,
            p * p < (q + 1) * (q + 1),
            q * q < (p + 1) * (p + 1),
    ;
}

/// The square root of a positive number.
fn root_num(man: u64, exp: i32) -> (r: Parts)
    requires
        0 < man < 0x20_0000_0000_0000,
        -1074 <= exp <= 971,
    ensures
        r.wf(Format::Double),
        r@ == model::Val::Fin(
            model::nearest_root(Format::Double, man as real * model::two_pow(exp as int)),
        ),
{
    let ghost x = man as real * model::two_pow(exp as int);
    proof {
        lemma2_to64();
        lemma2_to64_rest();
    }
    let len: u32 = bit_len(man as u128);
    proof {
        if len > 53 {
            round::lemma_pow2_increases(53, (len - 1) as nat);
        }
        round::lemma_scaled_binade(man as real, man as int, exp as int, len as nat);
    }
    let k: i32 = exp + len as i32 - 1;
    // shifted, so that the division rounds down
    let e: i32 = (k + 2048) / 2 - 1024 - 52;
    let up: u32 = (exp - 2 * e) as u32;
    assert(model::binade(x) == k);
    assert(e == model::binade(x) / 2 - 52);
    assert(105 - len <= up <= 106 - len);
    let p: u128 = shift_one(up);
    proof {
        lemma_pow2_adds(len as nat, up as nat);
        lemma_pow2_adds((len - 1) as nat, up as nat);
        round::lemma_pow2_increases((len + up) as nat, 106);
        round::lemma_pow2_increases(104, (len - 1 + up) as nat);
        lemma_pow2_adds(64, 42);
        lemma_pow2_adds(64, 40);
        let (lo, hi) = (pow2((len - 1) as nat) as int, pow2(len as nat) as int);
        assert(lo * p <= man * p && man * p < hi * p) by (nonlinear_arith)
            requires
                lo <= man < hi,
                p > 0,
        ;
        parts::lemma_shifted(man as int, 2 * e, up as nat);
    }
    let n: u128 = (man as u128) * p;
    let q: u64 = int_root(n);
    proof {
        let u = model::two_pow(2 * e);
        model::lemma_two_pow_pos(2 * e);
        let y = x / u;
        assert(y == n as real) by (nonlinear_arith)
            requires
                y == x / u,
                x == n as real * u,
                u > 0real,
        ;
        lemma_root_floor(y, q as int);
        lemma_halfway(n as int, q as int);
        assert(q >= 0x10_0000_0000_0000) by (nonlinear_arith)
            requires
                n < (q + 1) * (q + 1),
                n >= 0x10_0000_0000_0000 * 0x10_0000_0000_0000,
                q >= 0,
        ;
        assert(q * q + q < 0x8000_0000_0000_0000 * 0x8000_0000_0000_0000) by (nonlinear_arith)
            requires
                0 <= q < 0x20_0000_0000_0000,
        ;
    }
    let m: u64 = if n <= (q as u128) * (q as u128) + q as u128 {
        q
    } else {
        q + 1
    };
    if m == 0x20_0000_0000_0000 {
        proof {
            parts::lemma_shifted(0x10_0000_0000_0000, e as int, 1);
        }
        Parts::Num { neg: false, man: 0x10_0000_0000_0000, exp: e + 1 }
    } else {
        Parts::Num { neg: false, man: m, exp: e }
    }
}

proof fn lemma_halfway(n: int, q: int)
    ensures
        ({
            let mid = q as real + 1real / 2real;
            n as real <= mid * mid <==> n <= q * q + q
        }),
{
    let r = q as real;
    let mid = r + 1real / 2real;
    model::lemma_real_mul(q, q);
    assert(mid * mid == r * r + r + 1real / 4real) by (nonlinear_arith)
        requires
            mid == r + 1real / 2real,
    ;
}

pub(crate) fn root_parts(a: Parts) -> (r: Parts)
    requires
        a.wf(Format::Double),
    ensures
        r.wf(Format::Double),
        r@ == a@.root(Format::Double),
{
    match a {
        Parts::Nan => Parts::Nan,
        Parts::Inf { neg } => if neg {
            Parts::Nan
        } else {
            a
        },
        Parts::Num { neg, man, exp } => {
            proof {
                parts::lemma_scaled_sign(neg, man as int, exp as int);
            }
            if man == 0 {
                a
            } else if neg {
                Parts::Nan
            } else {
                root_num(man, exp)
            }
        },
    }
}

} // verus!
