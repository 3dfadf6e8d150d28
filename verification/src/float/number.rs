//! The two number types: a bit pattern and the operations on it.

use crate::float::convert::{
    ceil_parts, convert_parts, floor_parts, from_magnitude, less_parts, round_half_away, to_signed,
    to_unsigned,
};
use crate::float::model;
use crate::float::model::{Format, Val};
use crate::float::parts;
use crate::float::parts::{add_parts, div_parts, mul_parts, pack, unpack, Parts};
use crate::float::root::root_parts;
use vstd::prelude::*;

verus! {

/// A number of the double format, held as its bit pattern.
#[derive(Clone, Copy, Debug)]
pub struct F64 {
    pub bits: u64,
}

impl View for F64 {
    type V = Val;

    open spec fn view(&self) -> Val {
        model::decode(Format::Double, self.bits as int)
    }
}

impl F64 {
    pub fn from_bits(bits: u64) -> (r: F64)
        ensures
            r.bits == bits,
    {
        F64 { bits }
    }

    pub fn to_bits(self) -> (r: u64)
        ensures
            r == self.bits,
    {
        self.bits
    }

    fn parts(self) -> (r: Parts)
        ensures
            r@ == self@,
            r.wf(Format::Double),
    {
        unpack(Format::Double, self.bits)
    }

    fn of(p: Parts) -> (r: F64)
        requires
            p.wf(Format::Double),
        ensures
            r@ == p@,
    {
        F64 { bits: pack(Format::Double, p) }
    }

    /// The nearest number to `n`.
    pub fn from_u64(n: u64) -> (r: F64)
        ensures
            r@ == model::nearest(Format::Double, n as real),
    {
        F64::of(from_magnitude(Format::Double, false, n))
    }

    /// The number `n` itself.
    pub fn from_u16(n: u16) -> (r: F64)
        ensures
            r@ == Val::Fin(n as real),
    {
        proof {
            parts::lemma_nearest_exact(Format::Double, false, n as int, 0);
            assert(model::two_pow(0) == 1real);
        }
        F64::from_u64(n as u64)
    }

    pub fn plus(self, o: F64) -> (r: F64)
        ensures
            r@ == self@.plus(o@, Format::Double),
    {
        F64::of(add_parts(Format::Double, self.parts(), o.parts()))
    }

    pub fn negate(self) -> (r: F64)
        ensures
            r@ == self@.negate(),
    {
        let p = match self.parts() {
            Parts::Nan => Parts::Nan,
            Parts::Inf { neg } => Parts::Inf { neg: !neg },
            Parts::Num { neg, man, exp } => Parts::Num { neg: !neg, man, exp },
        };
        F64::of(p)
    }

    pub fn minus(self, o: F64) -> (r: F64)
        ensures
            r@ == self@.minus(o@, Format::Double),
    {
        self.plus(o.negate())
    }

    pub fn times(self, o: F64) -> (r: F64)
        ensures
            r@ == self@.times(o@, Format::Double),
    {
        F64::of(mul_parts(Format::Double, self.parts(), o.parts()))
    }

    /// The quotient; a zero divisor is taken as the positive zero.
    pub fn over(self, o: F64) -> (r: F64)
        ensures
            r@ == self@.over(o@, Format::Double),
    {
        F64::of(div_parts(Format::Double, self.parts(), o.parts()))
    }

    /// Whether both are numbers and `self` is less than `o`.
    pub fn less(self, o: F64) -> (r: bool)
        ensures
            r == self@.less(o@),
    {
        less_parts(Format::Double, self.parts(), o.parts())
    }

    pub fn is_nan(self) -> (r: bool)
        ensures
            r == (self@ is Nan),
    {
        match self.parts() {
            Parts::Nan => true,
            _ => false,
        }
    }

    /// Whether both are numbers and equal.
    pub fn same(self, o: F64) -> (r: bool)
        ensures
            r == self@.same(o@),
    {
        !self.is_nan() && !o.is_nan() && !self.less(o) && !o.less(self)
    }

    pub fn larger(self, o: F64) -> (r: F64)
        ensures
            r@ == self@.larger(o@),
    {
        if self.is_nan() || self.less(o) {
            o
        } else {
            self
        }
    }

    pub fn smaller(self, o: F64) -> (r: F64)
        ensures
            r@ == self@.smaller(o@),
    {
        if self.is_nan() || o.less(self) {
            o
        } else {
            self
        }
    }

    pub fn floored(self) -> (r: F64)
        ensures
            r@ == self@.floored(),
    {
        F64::of(floor_parts(Format::Double, self.parts()))
    }

    /// Conversion to an integer: towards zero, within the range of the type.
    pub fn to_usize(self) -> (r: usize)
        ensures
            r == model::to_int(self@, 0, usize::MAX as int),
    {
        to_unsigned(Format::Double, self.parts(), usize::MAX as u64) as usize
    }

    /// The nearest number to `n`.
    pub fn from_i64(n: i64) -> (r: F64)
        ensures
            r@ == model::nearest(Format::Double, n as real),
    {
        if n >= 0 {
            F64::from_u64(n as u64)
        } else {
            let mag: u64 = ((-(n + 1)) as u64) + 1;
            F64::of(from_magnitude(Format::Double, true, mag))
        }
    }

    pub fn root(self) -> (r: F64)
        ensures
            r@ == self@.root(Format::Double),
    {
        F64::of(root_parts(self.parts()))
    }

    pub fn ceiled(self) -> (r: F64)
        ensures
            r@ == self@.ceiled(),
    {
        F64::of(ceil_parts(Format::Double, self.parts()))
    }

    pub fn rounded(self) -> (r: F64)
        ensures
            r@ == self@.rounded(),
    {
        F64::of(round_half_away(Format::Double, self.parts()))
    }

    pub fn to_i64(self) -> (r: i64)
        ensures
            r == model::to_int(self@, i64::MIN as int, i64::MAX as int),
    {
        to_signed(Format::Double, self.parts(), i64::MAX)
    }

    pub fn to_i32(self) -> (r: i32)
        ensures
            r == model::to_int(self@, i32::MIN as int, i32::MAX as int),
    {
        to_signed(Format::Double, self.parts(), i32::MAX as i64) as i32
    }

    /// The nearest number of the single format.
    pub fn to_single(self) -> (r: F32)
        ensures
            r@ == self@.fitted(Format::Single),
    {
        F32::of(convert_parts(Format::Double, Format::Single, self.parts()))
    }
}

/// A number of the single format, held as its bit pattern.
#[derive(Clone, Copy, Debug)]
pub struct F32 {
    pub bits: u32,
}

impl View for F32 {
    type V = Val;

    open spec fn view(&self) -> Val {
        model::decode(Format::Single, self.bits as int)
    }
}

impl F32 {
    pub fn from_bits(bits: u32) -> (r: F32)
        ensures
            r.bits == bits,
    {
        F32 { bits }
    }

    pub fn to_bits(self) -> (r: u32)
        ensures
            r == self.bits,
    {
        self.bits
    }

    fn parts(self) -> (r: Parts)
        ensures
            r@ == self@,
            r.wf(Format::Single),
    {
        unpack(Format::Single, self.bits as u64)
    }

    fn of(p: Parts) -> (r: F32)
        requires
            p.wf(Format::Single),
        ensures
            r@ == p@,
    {
        F32 { bits: pack(Format::Single, p) as u32 }
    }

    /// The nearest number to `n`.
    pub fn from_u64(n: u64) -> (r: F32)
        ensures
            r@ == model::nearest(Format::Single, n as real),
    {
        F32::of(from_magnitude(Format::Single, false, n))
    }

    /// The number `n` itself.
    pub fn from_u16(n: u16) -> (r: F32)
        ensures
            r@ == Val::Fin(n as real),
    {
        proof {
            parts::lemma_nearest_exact(Format::Single, false, n as int, 0);
            assert(model::two_pow(0) == 1real);
        }
        F32::from_u64(n as u64)
    }

    pub fn plus(self, o: F32) -> (r: F32)
        ensures
            r@ == self@.plus(o@, Format::Single),
    {
        F32::of(add_parts(Format::Single, self.parts(), o.parts()))
    }

    pub fn negate(self) -> (r: F32)
        ensures
            r@ == self@.negate(),
    {
        let p = match self.parts() {
            Parts::Nan => Parts::Nan,
            Parts::Inf { neg } => Parts::Inf { neg: !neg },
            Parts::Num { neg, man, exp } => Parts::Num { neg: !neg, man, exp },
        };
        F32::of(p)
    }

    pub fn minus(self, o: F32) -> (r: F32)
        ensures
            r@ == self@.minus(o@, Format::Single),
    {
        self.plus(o.negate())
    }

    pub fn times(self, o: F32) -> (r: F32)
        ensures
            r@ == self@.times(o@, Format::Single),
    {
        F32::of(mul_parts(Format::Single, self.parts(), o.parts()))
    }

    /// The quotient; a zero divisor is taken as the positive zero.
    pub fn over(self, o: F32) -> (r: F32)
        ensures
            r@ == self@.over(o@, Format::Single),
    {
        F32::of(div_parts(Format::Single, self.parts(), o.parts()))
    }

    /// Whether both are numbers and `self` is less than `o`.
    pub fn less(self, o: F32) -> (r: bool)
        ensures
            r == self@.less(o@),
    {
        less_parts(Format::Single, self.parts(), o.parts())
    }

    pub fn is_nan(self) -> (r: bool)
        ensures
            r == (self@ is Nan),
    {
        match self.parts() {
            Parts::Nan => true,
            _ => false,
        }
    }

    /// Whether both are numbers and equal.
    pub fn same(self, o: F32) -> (r: bool)
        ensures
            r == self@.same(o@),
    {
        !self.is_nan() && !o.is_nan() && !self.less(o) && !o.less(self)
    }

    pub fn larger(self, o: F32) -> (r: F32)
        ensures
            r@ == self@.larger(o@),
    {
        if self.is_nan() || self.less(o) {
            o
        } else {
            self
        }
    }

    pub fn smaller(self, o: F32) -> (r: F32)
        ensures
            r@ == self@.smaller(o@),
    {
        if self.is_nan() || o.less(self) {
            o
        } else {
            self
        }
    }

    pub fn floored(self) -> (r: F32)
        ensures
            r@ == self@.floored(),
    {
        F32::of(floor_parts(Format::Single, self.parts()))
    }

    /// Conversion to an integer: towards zero, within the range of the type.
    pub fn to_usize(self) -> (r: usize)
        ensures
            r == model::to_int(self@, 0, usize::MAX as int),
    {
        to_unsigned(Format::Single, self.parts(), usize::MAX as u64) as usize
    }

    pub fn to_u8(self) -> (r: u8)
        ensures
            r == model::to_int(self@, 0, 255),
    {
        to_unsigned(Format::Single, self.parts(), 255) as u8
    }

    /// The same number in the double format.
    pub fn to_double(self) -> (r: F64)
        ensures
            r@ == self@,
    {
        let p: Parts = self.parts();
        proof {
            if let Parts::Num { neg, man, exp } = p {
                parts::lemma_nearest_exact(Format::Double, neg, man as int, exp as int);
            }
        }
        F64::of(convert_parts(Format::Single, Format::Double, p))
    }
}

} // verus!
