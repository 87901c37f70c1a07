//! The arithmetic that the engine computes with.
//!
//! Every operation that may round is done by a `Calc`, which the engine's user
//! supplies and the engine is generic in. Contracts speak of the operations'
//! results: `a.add(c, b)` in a contract is what `c` gives for that sum.
use crate::num::{F32, F64};
use vstd::prelude::*;

verus! {

/// An operation on numbers of one width.
#[derive(Clone, Copy, Debug, PartialEq, Eq, Structural)]
pub enum Op {
    Add,
    Sub,
    Mul,
    Div,
    /// Remainder with the sign of the first operand.
    Rem,
    /// Remainder that is never negative.
    RemEuclid,
    Sqrt,
    Sin,
    Cos,
    Tanh,
    /// The first operand to the power of the second.
    Pow,
    Log2,
    /// e to the power of the operand.
    Exp,
    Floor,
    Ceil,
    /// To the nearest whole number, halves away from zero.
    Round,
    /// What is left of the whole part.
    Fract,
    /// A whole number, the operand's bits as a signed number.
    FromInt,
    /// A whole number, the operand's bits as an unsigned number.
    FromUint,
    /// To a whole number towards zero, the result's bits as a signed number;
    /// the nearest there is where it is too large, 0 where there is none.
    ToInt,
    /// To a whole number towards zero, the result's bits as an unsigned number.
    ToUint,
    /// To the other width.
    Convert,
}

/// The width of an operation's operands.
#[derive(Clone, Copy, Debug, PartialEq, Eq, Structural)]
pub enum Width {
    Single,
    Double,
}

/// Does operations on bit patterns.
pub struct Calc<K> {
    pub run: K,
}

impl<K: Fn(Op, Width, u64, u64) -> u64> Calc<K> {
    /// Every operation is defined, and has one result.
    pub open spec fn sound(&self) -> bool {
        &&& forall|o: Op, w: Width, a: u64, b: u64| #[trigger] call_requires(self.run, (o, w, a, b))
        &&& forall|o: Op, w: Width, a: u64, b: u64, r: u64, s: u64|
            #[trigger] call_ensures(self.run, (o, w, a, b), r) && #[trigger] call_ensures(
                self.run,
                (o, w, a, b),
                s,
            ) ==> r == s
    }

    /// The result of an operation.
    pub open spec fn result(&self, o: Op, w: Width, a: u64, b: u64) -> u64 {
        choose|r: u64| call_ensures(self.run, (o, w, a, b), r)
    }

    fn perform(&self, o: Op, w: Width, a: u64, b: u64) -> (r: u64)
        requires
            self.sound(),
        ensures
            r == self.result(o, w, a, b),
    {
        (self.run)(o, w, a, b)
    }
}

/// `n` kept within `lo..=hi`.
pub open spec fn kept(n: int, lo: int, hi: int) -> int {
    if n < lo {
        lo
    } else if n > hi {
        hi
    } else {
        n
    }
}

impl F32 {
    /// The result of an operation on singles.
    pub open spec fn of_op<K: Fn(Op, Width, u64, u64) -> u64>(c: &Calc<K>, o: Op, a: F32, b: F32) -> F32 {
        F32 { bits: c.result(o, Width::Single, a.bits as u64, b.bits as u64) as u32 }
    }

    fn op<K: Fn(Op, Width, u64, u64) -> u64>(c: &Calc<K>, o: Op, a: F32, b: F32) -> (r: F32)
        requires
            c.sound(),
        ensures
            r == F32::of_op(c, o, a, b),
    {
        F32 { bits: c.perform(o, Width::Single, a.bits as u64, b.bits as u64) as u32 }
    }

    pub open spec fn sum<K: Fn(Op, Width, u64, u64) -> u64>(self, c: &Calc<K>, b: F32) -> F32 {
        F32::of_op(c, Op::Add, self, b)
    }

    #[verifier::when_used_as_spec(sum)]
    pub fn add<K: Fn(Op, Width, u64, u64) -> u64>(self, c: &Calc<K>, b: F32) -> (r: F32)
        requires
            c.sound(),
        ensures
            r == self.sum(c, b),
    {
        F32::op(c, Op::Add, self, b)
    }

    pub open spec fn difference<K: Fn(Op, Width, u64, u64) -> u64>(self, c: &Calc<K>, b: F32) -> F32 {
        F32::of_op(c, Op::Sub, self, b)
    }

    #[verifier::when_used_as_spec(difference)]
    pub fn sub<K: Fn(Op, Width, u64, u64) -> u64>(self, c: &Calc<K>, b: F32) -> (r: F32)
        requires
            c.sound(),
        ensures
            r == self.difference(c, b),
    {
        F32::op(c, Op::Sub, self, b)
    }

    pub open spec fn product<K: Fn(Op, Width, u64, u64) -> u64>(self, c: &Calc<K>, b: F32) -> F32 {
        F32::of_op(c, Op::Mul, self, b)
    }

    #[verifier::when_used_as_spec(product)]
    pub fn mul<K: Fn(Op, Width, u64, u64) -> u64>(self, c: &Calc<K>, b: F32) -> (r: F32)
        requires
            c.sound(),
        ensures
            r == self.product(c, b),
    {
        F32::op(c, Op::Mul, self, b)
    }

    pub open spec fn quotient<K: Fn(Op, Width, u64, u64) -> u64>(self, c: &Calc<K>, b: F32) -> F32 {
        F32::of_op(c, Op::Div, self, b)
    }

    #[verifier::when_used_as_spec(quotient)]
    pub fn div<K: Fn(Op, Width, u64, u64) -> u64>(self, c: &Calc<K>, b: F32) -> (r: F32)
        requires
            c.sound(),
        ensures
            r == self.quotient(c, b),
    {
        F32::op(c, Op::Div, self, b)
    }

    pub open spec fn remainder<K: Fn(Op, Width, u64, u64) -> u64>(self, c: &Calc<K>, b: F32) -> F32 {
        F32::of_op(c, Op::Rem, self, b)
    }

    #[verifier::when_used_as_spec(remainder)]
    pub fn rem<K: Fn(Op, Width, u64, u64) -> u64>(self, c: &Calc<K>, b: F32) -> (r: F32)
        requires
            c.sound(),
        ensures
            r == self.remainder(c, b),
    {
        F32::op(c, Op::Rem, self, b)
    }

    pub open spec fn modulus<K: Fn(Op, Width, u64, u64) -> u64>(self, c: &Calc<K>, b: F32) -> F32 {
        F32::of_op(c, Op::RemEuclid, self, b)
    }

    #[verifier::when_used_as_spec(modulus)]
    pub fn rem_euclid<K: Fn(Op, Width, u64, u64) -> u64>(self, c: &Calc<K>, b: F32) -> (r: F32)
        requires
            c.sound(),
        ensures
            r == self.modulus(c, b),
    {
        F32::op(c, Op::RemEuclid, self, b)
    }

    pub open spec fn power<K: Fn(Op, Width, u64, u64) -> u64>(self, c: &Calc<K>, b: F32) -> F32 {
        F32::of_op(c, Op::Pow, self, b)
    }

    #[verifier::when_used_as_spec(power)]
    pub fn pow<K: Fn(Op, Width, u64, u64) -> u64>(self, c: &Calc<K>, b: F32) -> (r: F32)
        requires
            c.sound(),
        ensures
            r == self.power(c, b),
    {
        F32::op(c, Op::Pow, self, b)
    }

    pub open spec fn root<K: Fn(Op, Width, u64, u64) -> u64>(self, c: &Calc<K>) -> F32 {
        F32::of_op(c, Op::Sqrt, self, self)
    }

    #[verifier::when_used_as_spec(root)]
    pub fn sqrt<K: Fn(Op, Width, u64, u64) -> u64>(self, c: &Calc<K>) -> (r: F32)
        requires
            c.sound(),
        ensures
            r == self.root(c),
    {
        F32::op(c, Op::Sqrt, self, self)
    }

    pub open spec fn sine<K: Fn(Op, Width, u64, u64) -> u64>(self, c: &Calc<K>) -> F32 {
        F32::of_op(c, Op::Sin, self, self)
    }

    #[verifier::when_used_as_spec(sine)]
    pub fn sin<K: Fn(Op, Width, u64, u64) -> u64>(self, c: &Calc<K>) -> (r: F32)
        requires
            c.sound(),
        ensures
            r == self.sine(c),
    {
        F32::op(c, Op::Sin, self, self)
    }

    pub open spec fn cosine<K: Fn(Op, Width, u64, u64) -> u64>(self, c: &Calc<K>) -> F32 {
        F32::of_op(c, Op::Cos, self, self)
    }

    #[verifier::when_used_as_spec(cosine)]
    pub fn cos<K: Fn(Op, Width, u64, u64) -> u64>(self, c: &Calc<K>) -> (r: F32)
        requires
            c.sound(),
        ensures
            r == self.cosine(c),
    {
        F32::op(c, Op::Cos, self, self)
    }

    pub open spec fn tangent<K: Fn(Op, Width, u64, u64) -> u64>(self, c: &Calc<K>) -> F32 {
        F32::of_op(c, Op::Tanh, self, self)
    }

    #[verifier::when_used_as_spec(tangent)]
    pub fn tanh<K: Fn(Op, Width, u64, u64) -> u64>(self, c: &Calc<K>) -> (r: F32)
        requires
            c.sound(),
        ensures
            r == self.tangent(c),
    {
        F32::op(c, Op::Tanh, self, self)
    }

    pub open spec fn logarithm<K: Fn(Op, Width, u64, u64) -> u64>(self, c: &Calc<K>) -> F32 {
        F32::of_op(c, Op::Log2, self, self)
    }

    #[verifier::when_used_as_spec(logarithm)]
    pub fn log2<K: Fn(Op, Width, u64, u64) -> u64>(self, c: &Calc<K>) -> (r: F32)
        requires
            c.sound(),
        ensures
            r == self.logarithm(c),
    {
        F32::op(c, Op::Log2, self, self)
    }

    pub open spec fn exponential<K: Fn(Op, Width, u64, u64) -> u64>(self, c: &Calc<K>) -> F32 {
        F32::of_op(c, Op::Exp, self, self)
    }

    #[verifier::when_used_as_spec(exponential)]
    pub fn exp<K: Fn(Op, Width, u64, u64) -> u64>(self, c: &Calc<K>) -> (r: F32)
        requires
            c.sound(),
        ensures
            r == self.exponential(c),
    {
        F32::op(c, Op::Exp, self, self)
    }

    pub open spec fn floored<K: Fn(Op, Width, u64, u64) -> u64>(self, c: &Calc<K>) -> F32 {
        F32::of_op(c, Op::Floor, self, self)
    }

    #[verifier::when_used_as_spec(floored)]
    pub fn floor<K: Fn(Op, Width, u64, u64) -> u64>(self, c: &Calc<K>) -> (r: F32)
        requires
            c.sound(),
        ensures
            r == self.floored(c),
    {
        F32::op(c, Op::Floor, self, self)
    }

    pub open spec fn ceiled<K: Fn(Op, Width, u64, u64) -> u64>(self, c: &Calc<K>) -> F32 {
        F32::of_op(c, Op::Ceil, self, self)
    }

    #[verifier::when_used_as_spec(ceiled)]
    pub fn ceil<K: Fn(Op, Width, u64, u64) -> u64>(self, c: &Calc<K>) -> (r: F32)
        requires
            c.sound(),
        ensures
            r == self.ceiled(c),
    {
        F32::op(c, Op::Ceil, self, self)
    }

    pub open spec fn rounded<K: Fn(Op, Width, u64, u64) -> u64>(self, c: &Calc<K>) -> F32 {
        F32::of_op(c, Op::Round, self, self)
    }

    #[verifier::when_used_as_spec(rounded)]
    pub fn round<K: Fn(Op, Width, u64, u64) -> u64>(self, c: &Calc<K>) -> (r: F32)
        requires
            c.sound(),
        ensures
            r == self.rounded(c),
    {
        F32::op(c, Op::Round, self, self)
    }

    pub open spec fn fraction<K: Fn(Op, Width, u64, u64) -> u64>(self, c: &Calc<K>) -> F32 {
        F32::of_op(c, Op::Fract, self, self)
    }

    #[verifier::when_used_as_spec(fraction)]
    pub fn fract<K: Fn(Op, Width, u64, u64) -> u64>(self, c: &Calc<K>) -> (r: F32)
        requires
            c.sound(),
        ensures
            r == self.fraction(c),
    {
        F32::op(c, Op::Fract, self, self)
    }

    /// The whole number `n`, or the nearest there is.
    pub open spec fn whole<K: Fn(Op, Width, u64, u64) -> u64>(c: &Calc<K>, n: i64) -> F32 {
        F32 { bits: c.result(Op::FromInt, Width::Single, n as u64, 0) as u32 }
    }

    #[verifier::when_used_as_spec(whole)]
    pub fn of_int<K: Fn(Op, Width, u64, u64) -> u64>(c: &Calc<K>, n: i64) -> (r: F32)
        requires
            c.sound(),
        ensures
            r == F32::whole(c, n),
    {
        F32 { bits: c.perform(Op::FromInt, Width::Single, n as u64, 0) as u32 }
    }

    /// The count `n`, or the nearest there is.
    pub open spec fn count<K: Fn(Op, Width, u64, u64) -> u64>(c: &Calc<K>, n: u64) -> F32 {
        F32 { bits: c.result(Op::FromUint, Width::Single, n, 0) as u32 }
    }

    #[verifier::when_used_as_spec(count)]
    pub fn of_count<K: Fn(Op, Width, u64, u64) -> u64>(c: &Calc<K>, n: u64) -> (r: F32)
        requires
            c.sound(),
        ensures
            r == F32::count(c, n),
    {
        F32 { bits: c.perform(Op::FromUint, Width::Single, n, 0) as u32 }
    }

    /// The whole part.
    pub open spec fn truncated<K: Fn(Op, Width, u64, u64) -> u64>(self, c: &Calc<K>) -> i64 {
        c.result(Op::ToInt, Width::Single, self.bits as u64, 0) as i64
    }

    #[verifier::when_used_as_spec(truncated)]
    pub fn to_int<K: Fn(Op, Width, u64, u64) -> u64>(self, c: &Calc<K>) -> (r: i64)
        requires
            c.sound(),
        ensures
            r == self.truncated(c),
    {
        c.perform(Op::ToInt, Width::Single, self.bits as u64, 0) as i64
    }

    /// The whole part where it is not negative, 0 else.
    pub open spec fn natural<K: Fn(Op, Width, u64, u64) -> u64>(self, c: &Calc<K>) -> u64 {
        c.result(Op::ToUint, Width::Single, self.bits as u64, 0)
    }

    #[verifier::when_used_as_spec(natural)]
    pub fn to_u64<K: Fn(Op, Width, u64, u64) -> u64>(self, c: &Calc<K>) -> (r: u64)
        requires
            c.sound(),
        ensures
            r == self.natural(c),
    {
        c.perform(Op::ToUint, Width::Single, self.bits as u64, 0)
    }

    /// The whole part as a byte: 0 below, 255 above.
    pub open spec fn byte<K: Fn(Op, Width, u64, u64) -> u64>(self, c: &Calc<K>) -> u8 {
        kept(self.truncated(c) as int, 0, 255) as u8
    }

    #[verifier::when_used_as_spec(byte)]
    pub fn to_u8<K: Fn(Op, Width, u64, u64) -> u64>(self, c: &Calc<K>) -> (r: u8)
        requires
            c.sound(),
        ensures
            r == self.byte(c),
    {
        let n: i64 = self.to_int(c);
        if n < 0 {
            0
        } else if n > 255 {
            255
        } else {
            n as u8
        }
    }

    /// The whole part as an unsigned 32-bit number: 0 below, the greatest above.
    pub open spec fn word<K: Fn(Op, Width, u64, u64) -> u64>(self, c: &Calc<K>) -> u32 {
        kept(self.truncated(c) as int, 0, u32::MAX as int) as u32
    }

    #[verifier::when_used_as_spec(word)]
    pub fn to_u32<K: Fn(Op, Width, u64, u64) -> u64>(self, c: &Calc<K>) -> (r: u32)
        requires
            c.sound(),
        ensures
            r == self.word(c),
    {
        let n: i64 = self.to_int(c);
        if n < 0 {
            0
        } else if n > u32::MAX as i64 {
            u32::MAX
        } else {
            n as u32
        }
    }

    /// The whole part as a signed 32-bit number: the least below, the greatest above.
    pub open spec fn signed_word<K: Fn(Op, Width, u64, u64) -> u64>(self, c: &Calc<K>) -> i32 {
        kept(self.truncated(c) as int, i32::MIN as int, i32::MAX as int) as i32
    }

    #[verifier::when_used_as_spec(signed_word)]
    pub fn to_i32<K: Fn(Op, Width, u64, u64) -> u64>(self, c: &Calc<K>) -> (r: i32)
        requires
            c.sound(),
        ensures
            r == self.signed_word(c),
    {
        let n: i64 = self.to_int(c);
        if n < i32::MIN as i64 {
            i32::MIN
        } else if n > i32::MAX as i64 {
            i32::MAX
        } else {
            n as i32
        }
    }

    /// The whole part as a size: 0 below, the greatest above.
    pub open spec fn size<K: Fn(Op, Width, u64, u64) -> u64>(self, c: &Calc<K>) -> usize {
        kept(self.truncated(c) as int, 0, usize::MAX as int) as usize
    }

    #[verifier::when_used_as_spec(size)]
    pub fn to_size<K: Fn(Op, Width, u64, u64) -> u64>(self, c: &Calc<K>) -> (r: usize)
        requires
            c.sound(),
        ensures
            r == self.size(c),
    {
        let n: i64 = self.to_int(c);
        if n < 0 {
            0
        } else if n as u64 > usize::MAX as u64 {
            usize::MAX
        } else {
            n as usize
        }
    }

    pub open spec fn converted<K: Fn(Op, Width, u64, u64) -> u64>(self, c: &Calc<K>) -> F64 {
        F64 { bits: c.result(Op::Convert, Width::Single, self.bits as u64, 0) as u64 }
    }

    #[verifier::when_used_as_spec(converted)]
    pub fn to_f64<K: Fn(Op, Width, u64, u64) -> u64>(self, c: &Calc<K>) -> (r: F64)
        requires
            c.sound(),
        ensures
            r == self.converted(c),
    {
        F64 { bits: c.perform(Op::Convert, Width::Single, self.bits as u64, 0) as u64 }
    }
}

impl F64 {
    /// The result of an operation on doubles.
    pub open spec fn of_op<K: Fn(Op, Width, u64, u64) -> u64>(c: &Calc<K>, o: Op, a: F64, b: F64) -> F64 {
        F64 { bits: c.result(o, Width::Double, a.bits as u64, b.bits as u64) as u64 }
    }

    fn op<K: Fn(Op, Width, u64, u64) -> u64>(c: &Calc<K>, o: Op, a: F64, b: F64) -> (r: F64)
        requires
            c.sound(),
        ensures
            r == F64::of_op(c, o, a, b),
    {
        F64 { bits: c.perform(o, Width::Double, a.bits as u64, b.bits as u64) as u64 }
    }

    pub open spec fn sum<K: Fn(Op, Width, u64, u64) -> u64>(self, c: &Calc<K>, b: F64) -> F64 {
        F64::of_op(c, Op::Add, self, b)
    }

    #[verifier::when_used_as_spec(sum)]
    pub fn add<K: Fn(Op, Width, u64, u64) -> u64>(self, c: &Calc<K>, b: F64) -> (r: F64)
        requires
            c.sound(),
        ensures
            r == self.sum(c, b),
    {
        F64::op(c, Op::Add, self, b)
    }

    pub open spec fn difference<K: Fn(Op, Width, u64, u64) -> u64>(self, c: &Calc<K>, b: F64) -> F64 {
        F64::of_op(c, Op::Sub, self, b)
    }

    #[verifier::when_used_as_spec(difference)]
    pub fn sub<K: Fn(Op, Width, u64, u64) -> u64>(self, c: &Calc<K>, b: F64) -> (r: F64)
        requires
            c.sound(),
        ensures
            r == self.difference(c, b),
    {
        F64::op(c, Op::Sub, self, b)
    }

    pub open spec fn product<K: Fn(Op, Width, u64, u64) -> u64>(self, c: &Calc<K>, b: F64) -> F64 {
        F64::of_op(c, Op::Mul, self, b)
    }

    #[verifier::when_used_as_spec(product)]
    pub fn mul<K: Fn(Op, Width, u64, u64) -> u64>(self, c: &Calc<K>, b: F64) -> (r: F64)
        requires
            c.sound(),
        ensures
            r == self.product(c, b),
    {
        F64::op(c, Op::Mul, self, b)
    }

    pub open spec fn quotient<K: Fn(Op, Width, u64, u64) -> u64>(self, c: &Calc<K>, b: F64) -> F64 {
        F64::of_op(c, Op::Div, self, b)
    }

    #[verifier::when_used_as_spec(quotient)]
    pub fn div<K: Fn(Op, Width, u64, u64) -> u64>(self, c: &Calc<K>, b: F64) -> (r: F64)
        requires
            c.sound(),
        ensures
            r == self.quotient(c, b),
    {
        F64::op(c, Op::Div, self, b)
    }

    pub open spec fn remainder<K: Fn(Op, Width, u64, u64) -> u64>(self, c: &Calc<K>, b: F64) -> F64 {
        F64::of_op(c, Op::Rem, self, b)
    }

    #[verifier::when_used_as_spec(remainder)]
    pub fn rem<K: Fn(Op, Width, u64, u64) -> u64>(self, c: &Calc<K>, b: F64) -> (r: F64)
        requires
            c.sound(),
        ensures
            r == self.remainder(c, b),
    {
        F64::op(c, Op::Rem, self, b)
    }

    pub open spec fn modulus<K: Fn(Op, Width, u64, u64) -> u64>(self, c: &Calc<K>, b: F64) -> F64 {
        F64::of_op(c, Op::RemEuclid, self, b)
    }

    #[verifier::when_used_as_spec(modulus)]
    pub fn rem_euclid<K: Fn(Op, Width, u64, u64) -> u64>(self, c: &Calc<K>, b: F64) -> (r: F64)
        requires
            c.sound(),
        ensures
            r == self.modulus(c, b),
    {
        F64::op(c, Op::RemEuclid, self, b)
    }

    pub open spec fn power<K: Fn(Op, Width, u64, u64) -> u64>(self, c: &Calc<K>, b: F64) -> F64 {
        F64::of_op(c, Op::Pow, self, b)
    }

    #[verifier::when_used_as_spec(power)]
    pub fn pow<K: Fn(Op, Width, u64, u64) -> u64>(self, c: &Calc<K>, b: F64) -> (r: F64)
        requires
            c.sound(),
        ensures
            r == self.power(c, b),
    {
        F64::op(c, Op::Pow, self, b)
    }

    pub open spec fn root<K: Fn(Op, Width, u64, u64) -> u64>(self, c: &Calc<K>) -> F64 {
        F64::of_op(c, Op::Sqrt, self, self)
    }

    #[verifier::when_used_as_spec(root)]
    pub fn sqrt<K: Fn(Op, Width, u64, u64) -> u64>(self, c: &Calc<K>) -> (r: F64)
        requires
            c.sound(),
        ensures
            r == self.root(c),
    {
        F64::op(c, Op::Sqrt, self, self)
    }

    pub open spec fn sine<K: Fn(Op, Width, u64, u64) -> u64>(self, c: &Calc<K>) -> F64 {
        F64::of_op(c, Op::Sin, self, self)
    }

    #[verifier::when_used_as_spec(sine)]
    pub fn sin<K: Fn(Op, Width, u64, u64) -> u64>(self, c: &Calc<K>) -> (r: F64)
        requires
            c.sound(),
        ensures
            r == self.sine(c),
    {
        F64::op(c, Op::Sin, self, self)
    }

    pub open spec fn cosine<K: Fn(Op, Width, u64, u64) -> u64>(self, c: &Calc<K>) -> F64 {
        F64::of_op(c, Op::Cos, self, self)
    }

    #[verifier::when_used_as_spec(cosine)]
    pub fn cos<K: Fn(Op, Width, u64, u64) -> u64>(self, c: &Calc<K>) -> (r: F64)
        requires
            c.sound(),
        ensures
            r == self.cosine(c),
    {
        F64::op(c, Op::Cos, self, self)
    }

    pub open spec fn tangent<K: Fn(Op, Width, u64, u64) -> u64>(self, c: &Calc<K>) -> F64 {
        F64::of_op(c, Op::Tanh, self, self)
    }

    #[verifier::when_used_as_spec(tangent)]
    pub fn tanh<K: Fn(Op, Width, u64, u64) -> u64>(self, c: &Calc<K>) -> (r: F64)
        requires
            c.sound(),
        ensures
            r == self.tangent(c),
    {
        F64::op(c, Op::Tanh, self, self)
    }

    pub open spec fn logarithm<K: Fn(Op, Width, u64, u64) -> u64>(self, c: &Calc<K>) -> F64 {
        F64::of_op(c, Op::Log2, self, self)
    }

    #[verifier::when_used_as_spec(logarithm)]
    pub fn log2<K: Fn(Op, Width, u64, u64) -> u64>(self, c: &Calc<K>) -> (r: F64)
        requires
            c.sound(),
        ensures
            r == self.logarithm(c),
    {
        F64::op(c, Op::Log2, self, self)
    }

    pub open spec fn exponential<K: Fn(Op, Width, u64, u64) -> u64>(self, c: &Calc<K>) -> F64 {
        F64::of_op(c, Op::Exp, self, self)
    }

    #[verifier::when_used_as_spec(exponential)]
    pub fn exp<K: Fn(Op, Width, u64, u64) -> u64>(self, c: &Calc<K>) -> (r: F64)
        requires
            c.sound(),
        ensures
            r == self.exponential(c),
    {
        F64::op(c, Op::Exp, self, self)
    }

    pub open spec fn floored<K: Fn(Op, Width, u64, u64) -> u64>(self, c: &Calc<K>) -> F64 {
        F64::of_op(c, Op::Floor, self, self)
    }

    #[verifier::when_used_as_spec(floored)]
    pub fn floor<K: Fn(Op, Width, u64, u64) -> u64>(self, c: &Calc<K>) -> (r: F64)
        requires
            c.sound(),
        ensures
            r == self.floored(c),
    {
        F64::op(c, Op::Floor, self, self)
    }

    pub open spec fn ceiled<K: Fn(Op, Width, u64, u64) -> u64>(self, c: &Calc<K>) -> F64 {
        F64::of_op(c, Op::Ceil, self, self)
    }

    #[verifier::when_used_as_spec(ceiled)]
    pub fn ceil<K: Fn(Op, Width, u64, u64) -> u64>(self, c: &Calc<K>) -> (r: F64)
        requires
            c.sound(),
        ensures
            r == self.ceiled(c),
    {
        F64::op(c, Op::Ceil, self, self)
    }

    pub open spec fn rounded<K: Fn(Op, Width, u64, u64) -> u64>(self, c: &Calc<K>) -> F64 {
        F64::of_op(c, Op::Round, self, self)
    }

    #[verifier::when_used_as_spec(rounded)]
    pub fn round<K: Fn(Op, Width, u64, u64) -> u64>(self, c: &Calc<K>) -> (r: F64)
        requires
            c.sound(),
        ensures
            r == self.rounded(c),
    {
        F64::op(c, Op::Round, self, self)
    }

    pub open spec fn fraction<K: Fn(Op, Width, u64, u64) -> u64>(self, c: &Calc<K>) -> F64 {
        F64::of_op(c, Op::Fract, self, self)
    }

    #[verifier::when_used_as_spec(fraction)]
    pub fn fract<K: Fn(Op, Width, u64, u64) -> u64>(self, c: &Calc<K>) -> (r: F64)
        requires
            c.sound(),
        ensures
            r == self.fraction(c),
    {
        F64::op(c, Op::Fract, self, self)
    }

    /// The whole number `n`, or the nearest there is.
    pub open spec fn whole<K: Fn(Op, Width, u64, u64) -> u64>(c: &Calc<K>, n: i64) -> F64 {
        F64 { bits: c.result(Op::FromInt, Width::Double, n as u64, 0) as u64 }
    }

    #[verifier::when_used_as_spec(whole)]
    pub fn of_int<K: Fn(Op, Width, u64, u64) -> u64>(c: &Calc<K>, n: i64) -> (r: F64)
        requires
            c.sound(),
        ensures
            r == F64::whole(c, n),
    {
        F64 { bits: c.perform(Op::FromInt, Width::Double, n as u64, 0) as u64 }
    }

    /// The count `n`, or the nearest there is.
    pub open spec fn count<K: Fn(Op, Width, u64, u64) -> u64>(c: &Calc<K>, n: u64) -> F64 {
        F64 { bits: c.result(Op::FromUint, Width::Double, n, 0) as u64 }
    }

    #[verifier::when_used_as_spec(count)]
    pub fn of_count<K: Fn(Op, Width, u64, u64) -> u64>(c: &Calc<K>, n: u64) -> (r: F64)
        requires
            c.sound(),
        ensures
            r == F64::count(c, n),
    {
        F64 { bits: c.perform(Op::FromUint, Width::Double, n, 0) as u64 }
    }

    /// The whole part.
    pub open spec fn truncated<K: Fn(Op, Width, u64, u64) -> u64>(self, c: &Calc<K>) -> i64 {
        c.result(Op::ToInt, Width::Double, self.bits as u64, 0) as i64
    }

    #[verifier::when_used_as_spec(truncated)]
    pub fn to_int<K: Fn(Op, Width, u64, u64) -> u64>(self, c: &Calc<K>) -> (r: i64)
        requires
            c.sound(),
        ensures
            r == self.truncated(c),
    {
        c.perform(Op::ToInt, Width::Double, self.bits as u64, 0) as i64
    }

    /// The whole part where it is not negative, 0 else.
    pub open spec fn natural<K: Fn(Op, Width, u64, u64) -> u64>(self, c: &Calc<K>) -> u64 {
        c.result(Op::ToUint, Width::Double, self.bits as u64, 0)
    }

    #[verifier::when_used_as_spec(natural)]
    pub fn to_u64<K: Fn(Op, Width, u64, u64) -> u64>(self, c: &Calc<K>) -> (r: u64)
        requires
            c.sound(),
        ensures
            r == self.natural(c),
    {
        c.perform(Op::ToUint, Width::Double, self.bits as u64, 0)
    }

    /// The whole part as a byte: 0 below, 255 above.
    pub open spec fn byte<K: Fn(Op, Width, u64, u64) -> u64>(self, c: &Calc<K>) -> u8 {
        kept(self.truncated(c) as int, 0, 255) as u8
    }

    #[verifier::when_used_as_spec(byte)]
    pub fn to_u8<K: Fn(Op, Width, u64, u64) -> u64>(self, c: &Calc<K>) -> (r: u8)
        requires
            c.sound(),
        ensures
            r == self.byte(c),
    {
        let n: i64 = self.to_int(c);
        if n < 0 {
            0
        } else if n > 255 {
            255
        } else {
            n as u8
        }
    }

    /// The whole part as an unsigned 32-bit number: 0 below, the greatest above.
    pub open spec fn word<K: Fn(Op, Width, u64, u64) -> u64>(self, c: &Calc<K>) -> u32 {
        kept(self.truncated(c) as int, 0, u32::MAX as int) as u32
    }

    #[verifier::when_used_as_spec(word)]
    pub fn to_u32<K: Fn(Op, Width, u64, u64) -> u64>(self, c: &Calc<K>) -> (r: u32)
        requires
            c.sound(),
        ensures
            r == self.word(c),
    {
        let n: i64 = self.to_int(c);
        if n < 0 {
            0
        } else if n > u32::MAX as i64 {
            u32::MAX
        } else {
            n as u32
        }
    }

    /// The whole part as a signed 32-bit number: the least below, the greatest above.
    pub open spec fn signed_word<K: Fn(Op, Width, u64, u64) -> u64>(self, c: &Calc<K>) -> i32 {
        kept(self.truncated(c) as int, i32::MIN as int, i32::MAX as int) as i32
    }

    #[verifier::when_used_as_spec(signed_word)]
    pub fn to_i32<K: Fn(Op, Width, u64, u64) -> u64>(self, c: &Calc<K>) -> (r: i32)
        requires
            c.sound(),
        ensures
            r == self.signed_word(c),
    {
        let n: i64 = self.to_int(c);
        if n < i32::MIN as i64 {
            i32::MIN
        } else if n > i32::MAX as i64 {
            i32::MAX
        } else {
            n as i32
        }
    }

    /// The whole part as a size: 0 below, the greatest above.
    pub open spec fn size<K: Fn(Op, Width, u64, u64) -> u64>(self, c: &Calc<K>) -> usize {
        kept(self.truncated(c) as int, 0, usize::MAX as int) as usize
    }

    #[verifier::when_used_as_spec(size)]
    pub fn to_size<K: Fn(Op, Width, u64, u64) -> u64>(self, c: &Calc<K>) -> (r: usize)
        requires
            c.sound(),
        ensures
            r == self.size(c),
    {
        let n: i64 = self.to_int(c);
        if n < 0 {
            0
        } else if n as u64 > usize::MAX as u64 {
            usize::MAX
        } else {
            n as usize
        }
    }

    pub open spec fn converted<K: Fn(Op, Width, u64, u64) -> u64>(self, c: &Calc<K>) -> F32 {
        F32 { bits: c.result(Op::Convert, Width::Double, self.bits as u64, 0) as u32 }
    }

    #[verifier::when_used_as_spec(converted)]
    pub fn to_f32<K: Fn(Op, Width, u64, u64) -> u64>(self, c: &Calc<K>) -> (r: F32)
        requires
            c.sound(),
        ensures
            r == self.converted(c),
    {
        F32 { bits: c.perform(Op::Convert, Width::Double, self.bits as u64, 0) as u32 }
    }
}

// --------------------------------------------------------------------- laws

/// Arithmetic that is a function of its operands is sound, and what an operation gives is
/// its result.
pub proof fn law_functions_are_sound<K: Fn(Op, Width, u64, u64) -> u64>(c: &Calc<K>, f: spec_fn(Op, Width, u64, u64) -> u64)
    requires
        forall|o: Op, w: Width, a: u64, b: u64| #[trigger] call_requires(c.run, (o, w, a, b)),
        forall|o: Op, w: Width, a: u64, b: u64, r: u64|
            #[trigger] call_ensures(c.run, (o, w, a, b), r) ==> r == f(o, w, a, b),
    ensures
        c.sound(),
        forall|o: Op, w: Width, a: u64, b: u64, r: u64|
            #[trigger] call_ensures(c.run, (o, w, a, b), r) ==> c.result(o, w, a, b) == r,
{
}

} // verus!
