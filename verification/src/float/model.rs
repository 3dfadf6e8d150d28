//! What a floating point number is, and what rounding means: the numbers that
//! the operations of this module compute are stated here, over the reals.

use vstd::arithmetic::power2::*;
use vstd::prelude::*;

verus! {

/// The value of a floating point number. The two zeros are one value.
pub enum Val {
    Nan,
    PosInf,
    NegInf,
    Fin(real),
}

/// The two interchange formats in use.
#[derive(Clone, Copy)]
pub enum Format {
    Single,
    Double,
}

impl Format {
    /// Number of significant binary digits.
    pub open spec fn digits(self) -> int {
        match self {
            Format::Single => 24,
            Format::Double => 53,
        }
    }

    /// Exponent of the smallest positive number.
    pub open spec fn min_exp(self) -> int {
        match self {
            Format::Single => -149,
            Format::Double => -1074,
        }
    }

    /// Number of values of the fraction field.
    pub open spec fn fractions(self) -> int {
        match self {
            Format::Single => 0x80_0000,
            Format::Double => 0x10_0000_0000_0000,
        }
    }

    /// Number of values of the exponent field.
    pub open spec fn fields(self) -> int {
        match self {
            Format::Single => 0x100,
            Format::Double => 0x800,
        }
    }

    /// Exponent of the last digit of the greatest finite numbers.
    pub open spec fn max_exp(self) -> int {
        match self {
            Format::Single => 104,
            Format::Double => 971,
        }
    }
}

/// Two to the power `e`, for any integer `e`.
pub open spec fn two_pow(e: int) -> real
    decreases (if e >= 0 { e } else { -e }),
{
    if e == 0 {
        1real
    } else if e > 0 {
        2real * two_pow(e - 1)
    } else {
        two_pow(e + 1) / 2real
    }
}

/// The exponent `k` for which a positive `x` lies in `2^k .. 2^(k+1)`.
pub open spec fn binade(x: real) -> int {
    choose|k: int| #[trigger] two_pow(k) <= x && x < two_pow(k + 1)
}

/// Exponent of the last digit that format `f` keeps of a positive `x`.
pub open spec fn last_digit(f: Format, x: real) -> int {
    let e = binade(x) - f.digits() + 1;
    if e < f.min_exp() {
        f.min_exp()
    } else {
        e
    }
}

/// The integer nearest to a nonnegative `y`; of two, the even one.
pub open spec fn half_even(y: real) -> int {
    let q = y.floor();
    let frac = y - q as real;
    if frac < 1real / 2real || (frac == 1real / 2real && q % 2 == 0) {
        q
    } else {
        q + 1
    }
}

/// A positive `x` rounded to the digits that format `f` keeps of it.
pub open spec fn round_digits(f: Format, x: real) -> real {
    let unit = two_pow(last_digit(f, x));
    half_even(x / unit) as real * unit
}

/// The number of format `f` nearest to `x`: what an operation with the exact
/// result `x` returns.
pub open spec fn nearest(f: Format, x: real) -> Val {
    if x == 0real {
        Val::Fin(0real)
    } else if x > 0real {
        if round_digits(f, x) >= two_pow(f.max_exp() + f.digits()) {
            Val::PosInf
        } else {
            Val::Fin(round_digits(f, x))
        }
    } else if round_digits(f, -x) >= two_pow(f.max_exp() + f.digits()) {
        Val::NegInf
    } else {
        Val::Fin(-round_digits(f, -x))
    }
}

/// The number that the bit pattern `bits` of format `f` stands for: a sign, an
/// exponent field and a fraction, from the highest digit down.
pub open spec fn decode(f: Format, bits: int) -> Val {
    let fractions = f.fractions();
    let fields = f.fields();
    let frac = bits % fractions;
    let field = (bits / fractions) % fields;
    let neg = bits >= fractions * fields;
    if field == fields - 1 {
        if frac != 0 {
            Val::Nan
        } else if neg {
            Val::NegInf
        } else {
            Val::PosInf
        }
    } else {
        let mag = if field == 0 {
            frac as real * two_pow(f.min_exp())
        } else {
            (fractions + frac) as real * two_pow(f.min_exp() + field - 1)
        };
        Val::Fin(if neg { -mag } else { mag })
    }
}

impl Val {
    pub open spec fn negate(self) -> Val {
        match self {
            Val::Nan => Val::Nan,
            Val::PosInf => Val::NegInf,
            Val::NegInf => Val::PosInf,
            Val::Fin(x) => Val::Fin(-x),
        }
    }

    /// Whether both are numbers and `self` is less than `o`.
    pub open spec fn less(self, o: Val) -> bool {
        match (self, o) {
            (Val::Fin(x), Val::Fin(y)) => x < y,
            (Val::NegInf, Val::Fin(_)) => true,
            (Val::NegInf, Val::PosInf) => true,
            (Val::Fin(_), Val::PosInf) => true,
            _ => false,
        }
    }

    /// Whether both are numbers and equal.
    pub open spec fn same(self, o: Val) -> bool {
        self == o && !(self is Nan)
    }

    /// The sum, as an operation of format `f` returns it.
    pub open spec fn plus(self, o: Val, f: Format) -> Val {
        match (self, o) {
            (Val::Nan, _) => Val::Nan,
            (_, Val::Nan) => Val::Nan,
            (Val::Fin(x), Val::Fin(y)) => nearest(f, x + y),
            (Val::Fin(_), _) => o,
            (_, Val::Fin(_)) => self,
            _ => if self == o {
                self
            } else {
                Val::Nan
            },
        }
    }

    /// The difference, as an operation of format `f` returns it.
    pub open spec fn minus(self, o: Val, f: Format) -> Val {
        self.plus(o.negate(), f)
    }

    /// The sign of a number: -1, 0 or 1.
    pub open spec fn sign(self) -> int {
        match self {
            Val::Nan => 0,
            Val::PosInf => 1,
            Val::NegInf => -1,
            Val::Fin(x) => if x > 0real {
                1
            } else if x < 0real {
                -1
            } else {
                0
            },
        }
    }

    /// The infinity of the given sign; no number for the sign 0.
    pub open spec fn infinity(sign: int) -> Val {
        if sign > 0 {
            Val::PosInf
        } else if sign < 0 {
            Val::NegInf
        } else {
            Val::Nan
        }
    }

    /// The product, as an operation of format `f` returns it.
    pub open spec fn times(self, o: Val, f: Format) -> Val {
        match (self, o) {
            (Val::Nan, _) => Val::Nan,
            (_, Val::Nan) => Val::Nan,
            (Val::Fin(x), Val::Fin(y)) => nearest(f, x * y),
            _ => Val::infinity(self.sign() * o.sign()),
        }
    }

    /// The quotient, as an operation of format `f` returns it, where a zero
    /// divisor is the positive zero.
    pub open spec fn over(self, o: Val, f: Format) -> Val {
        match (self, o) {
            (Val::Nan, _) => Val::Nan,
            (_, Val::Nan) => Val::Nan,
            (Val::Fin(x), Val::Fin(y)) => if y == 0real {
                Val::infinity(self.sign())
            } else {
                nearest(f, x / y)
            },
            (Val::Fin(_), _) => Val::Fin(0real),
            (_, Val::Fin(y)) => if y < 0real {
                self.negate()
            } else {
                self
            },
            _ => Val::Nan,
        }
    }

    /// The number of format `f` nearest to a number of any format.
    pub open spec fn fitted(self, f: Format) -> Val {
        match self {
            Val::Fin(x) => nearest(f, x),
            _ => self,
        }
    }

    /// The greater of two; a NaN gives way to the other.
    pub open spec fn larger(self, o: Val) -> Val {
        if self is Nan || self.less(o) {
            o
        } else {
            self
        }
    }

    /// The lesser of two; a NaN gives way to the other.
    pub open spec fn smaller(self, o: Val) -> Val {
        if self is Nan || o.less(self) {
            o
        } else {
            self
        }
    }
}

/// The nearest integer to `x`; of two, the one farther from zero.
pub open spec fn half_away(x: real) -> int {
    if x >= 0real {
        (x + 1real / 2real).floor()
    } else {
        -((-x + 1real / 2real).floor())
    }
}

impl Val {
    /// The greatest integer that is not above a number.
    pub open spec fn floored(self) -> Val {
        match self {
            Val::Fin(x) => Val::Fin(x.floor() as real),
            _ => self,
        }
    }

    /// The least integer that is not below a number.
    pub open spec fn ceiled(self) -> Val {
        match self {
            Val::Fin(x) => Val::Fin(-((-x).floor() as real)),
            _ => self,
        }
    }

    /// The integer nearest to a number.
    pub open spec fn rounded(self) -> Val {
        match self {
            Val::Fin(x) => Val::Fin(half_away(x) as real),
            _ => self,
        }
    }
}

/// The integer part of the square root of `y`.
pub open spec fn root_floor(y: real) -> int {
    choose|q: int|
        q >= 0 && #[trigger] (q * q) as real <= y && y < ((q + 1) * (q + 1)) as real
}

/// The number of format `f` nearest to the square root of a positive `x`.
pub open spec fn nearest_root(f: Format, x: real) -> real {
    let e = binade(x) / 2 - f.digits() + 1;
    let y = x / two_pow(2 * e);
    let q = root_floor(y);
    let mid = q as real + 1real / 2real;
    let m = if y <= mid * mid {
        q
    } else {
        q + 1
    };
    m as real * two_pow(e)
}

impl Val {
    /// The square root, as an operation of format `f` returns it.
    pub open spec fn root(self, f: Format) -> Val {
        match self {
            Val::PosInf => Val::PosInf,
            Val::Fin(x) => if x < 0real {
                Val::Nan
            } else if x == 0real {
                Val::Fin(0real)
            } else {
                Val::Fin(nearest_root(f, x))
            },
            _ => Val::Nan,
        }
    }
}

/// `x` without its fraction.
pub open spec fn truncate(x: real) -> int {
    if x >= 0real {
        x.floor()
    } else {
        -((-x).floor())
    }
}

/// Conversion to an integer from `lo` to `hi`: towards zero, to the nearer end
/// beyond the range, and to zero without a number.
pub open spec fn to_int(v: Val, lo: int, hi: int) -> int {
    match v {
        Val::Nan => 0,
        Val::PosInf => hi,
        Val::NegInf => lo,
        Val::Fin(x) => {
            let n = truncate(x);
            if n < lo {
                lo
            } else if n > hi {
                hi
            } else {
                n
            }
        },
    }
}

pub proof fn lemma_real_mul(a: int, b: int)
    ensures
        (a * b) as real == a as real * b as real,
{
    assert((a * b) as real == a as real * b as real) by (nonlinear_arith);
}

pub proof fn lemma_two_pow_pos(e: int)
    ensures
        two_pow(e) > 0real,
    decreases (if e >= 0 { e } else { -e }),
{
    if e > 0 {
        lemma_two_pow_pos(e - 1);
    } else if e < 0 {
        lemma_two_pow_pos(e + 1);
    }
}

pub proof fn lemma_two_pow_succ(e: int)
    ensures
        two_pow(e + 1) == 2real * two_pow(e),
{
    if e >= 0 {
    } else {
        assert(two_pow(e) == two_pow(e + 1) / 2real);
    }
}

pub proof fn lemma_two_pow_add(a: int, b: int)
    ensures
        two_pow(a + b) == two_pow(a) * two_pow(b),
    decreases (if b >= 0 { b } else { -b }),
{
    if b > 0 {
        lemma_two_pow_add(a, b - 1);
        lemma_two_pow_succ(a + b - 1);
        let p = two_pow(a);
        let q = two_pow(b - 1);
        assert(2real * (p * q) == p * (2real * q)) by (nonlinear_arith);
    } else if b < 0 {
        lemma_two_pow_add(a, b + 1);
        lemma_two_pow_succ(a + b);
        lemma_two_pow_succ(b);
        let p = two_pow(a);
        let q = two_pow(b);
        assert(p * (2real * q) == 2real * (p * q)) by (nonlinear_arith);
    }
}

pub proof fn lemma_two_pow_nat(n: nat)
    ensures
        two_pow(n as int) == pow2(n) as real,
    decreases n,
{
    if n == 0 {
        lemma2_to64();
    } else {
        lemma_two_pow_nat((n - 1) as nat);
        lemma_pow2_unfold(n);
    }
}

pub proof fn lemma_two_pow_increases(a: int, b: int)
    requires
        a <= b,
    ensures
        two_pow(a) <= two_pow(b),
        a < b ==> two_pow(a) < two_pow(b),
    decreases b - a,
{
    lemma_two_pow_pos(a);
    if a < b {
        lemma_two_pow_increases(a, b - 1);
        lemma_two_pow_succ(b - 1);
        lemma_two_pow_pos(b - 1);
    }
}

pub proof fn lemma_binade(x: real, k: int)
    requires
        two_pow(k) <= x < two_pow(k + 1),
    ensures
        binade(x) == k,
{
    let j = binade(x);
    assert(two_pow(j) <= x < two_pow(j + 1));
    if j < k {
        lemma_two_pow_increases(j + 1, k);
    } else if k < j {
        lemma_two_pow_increases(k + 1, j);
    }
}

} // verus!
