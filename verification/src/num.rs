//! Real-valued parameters, held by their IEEE 754 bit patterns.
//!
//! The engine stores, compares, clamps and converts these numbers exactly;
//! `value` says what number a pattern denotes. Arithmetic that rounds belongs
//! to whoever drives the engine.
use vstd::arithmetic::power2::{
    lemma2_to64, lemma_pow2_pos, lemma_pow2_strictly_increases, lemma_pow2_unfold, pow2,
};
use vstd::prelude::*;

verus! {

/// A single-precision number.
#[derive(Clone, Copy, Debug)]
pub struct F32 {
    pub bits: u32,
}

impl F32 {
    /// The pattern without its sign bit.
    pub open spec fn mag(self) -> int {
        self.bits as int % 0x8000_0000
    }

    pub open spec fn neg(self) -> bool {
        self.bits >= 0x8000_0000
    }

    pub open spec fn nan(self) -> bool {
        self.mag() > 0x7f80_0000
    }

    pub open spec fn finite(self) -> bool {
        self.mag() < 0x7f80_0000
    }

    /// Orders the patterns as the numbers they denote; both zeros have key 0.
    pub open spec fn key(self) -> int {
        if self.neg() {
            -self.mag()
        } else {
            self.mag()
        }
    }

    /// The number denoted, in units of 2^-149.
    pub open spec fn value(self) -> int {
        if self.neg() {
            -single_value(self.mag())
        } else {
            single_value(self.mag())
        }
    }

    /// `self < other`; false when either is not a number.
    pub open spec fn below(self, other: F32) -> bool {
        !self.nan() && !other.nan() && self.key() < other.key()
    }

    /// `self <= other`; false when either is not a number.
    pub open spec fn at_most(self, other: F32) -> bool {
        !self.nan() && !other.nan() && self.key() <= other.key()
    }

    /// The nearest number in `lo..=hi`; what is not a number stays as it is.
    pub open spec fn clamped(self, lo: F32, hi: F32) -> F32 {
        if self.below(lo) {
            lo
        } else if hi.below(self) {
            hi
        } else {
            self
        }
    }

    /// The greater of the two; `other` when `self` is not a number.
    pub open spec fn greater(self, other: F32) -> F32 {
        if self.nan() || self.below(other) {
            other
        } else {
            self
        }
    }

    /// The lesser of the two; `other` when `self` is not a number.
    pub open spec fn lesser(self, other: F32) -> F32 {
        if self.nan() || other.below(self) {
            other
        } else {
            self
        }
    }

    #[verifier::when_used_as_spec(nan)]
    #[inline]
    pub fn is_nan(self) -> (r: bool)
        ensures
            r == self.nan(),
    {
        self.bits % 0x8000_0000 > 0x7f80_0000
    }

    #[verifier::when_used_as_spec(finite)]
    #[inline]
    pub fn is_finite(self) -> (r: bool)
        ensures
            r == self.finite(),
    {
        self.bits % 0x8000_0000 < 0x7f80_0000
    }

    #[verifier::when_used_as_spec(below)]
    #[inline]
    pub fn lt(self, other: F32) -> (r: bool)
        ensures
            r == self.below(other),
    {
        if self.is_nan() || other.is_nan() {
            return false;
        }
        let a: u32 = self.bits % 0x8000_0000;
        let b: u32 = other.bits % 0x8000_0000;
        if self.bits >= 0x8000_0000 {
            if other.bits >= 0x8000_0000 {
                b < a
            } else {
                a > 0 || b > 0
            }
        } else {
            other.bits < 0x8000_0000 && a < b
        }
    }

    #[verifier::when_used_as_spec(at_most)]
    #[inline]
    pub fn le(self, other: F32) -> (r: bool)
        ensures
            r == self.at_most(other),
    {
        !self.is_nan() && !other.is_nan() && !other.lt(self)
    }

    #[verifier::when_used_as_spec(clamped)]
    #[inline]
    pub fn clamp(self, lo: F32, hi: F32) -> (r: F32)
        requires
            lo.at_most(hi),
        ensures
            r == self.clamped(lo, hi),
    {
        if self.lt(lo) {
            lo
        } else if hi.lt(self) {
            hi
        } else {
            self
        }
    }

    /// The same for bounds that may not be in order: the lower one counts first.
    #[verifier::when_used_as_spec(clamped)]
    #[inline]
    pub fn limit(self, lo: F32, hi: F32) -> (r: F32)
        ensures
            r == self.clamped(lo, hi),
    {
        if self.lt(lo) {
            lo
        } else if hi.lt(self) {
            hi
        } else {
            self
        }
    }

    #[verifier::when_used_as_spec(greater)]
    #[inline]
    pub fn max(self, other: F32) -> (r: F32)
        ensures
            r == self.greater(other),
    {
        if self.is_nan() || self.lt(other) {
            other
        } else {
            self
        }
    }

    #[verifier::when_used_as_spec(lesser)]
    #[inline]
    pub fn min(self, other: F32) -> (r: F32)
        ensures
            r == self.lesser(other),
    {
        if self.is_nan() || other.lt(self) {
            other
        } else {
            self
        }
    }

    /// The same number without its sign.
    pub open spec fn unsigned(self) -> F32 {
        F32 { bits: self.mag() as u32 }
    }

    #[verifier::when_used_as_spec(unsigned)]
    #[inline]
    pub fn abs(self) -> (r: F32)
        ensures
            r == self.unsigned(),
    {
        F32 { bits: self.bits % 0x8000_0000 }
    }

    /// The same number with the other sign.
    pub open spec fn negated(self) -> F32 {
        if self.neg() {
            F32 { bits: (self.bits - 0x8000_0000) as u32 }
        } else {
            F32 { bits: (self.bits + 0x8000_0000) as u32 }
        }
    }

    #[verifier::when_used_as_spec(negated)]
    #[inline]
    pub fn minus(self) -> (r: F32)
        ensures
            r == self.negated(),
    {
        if self.bits >= 0x8000_0000 {
            F32 { bits: self.bits - 0x8000_0000 }
        } else {
            F32 { bits: self.bits + 0x8000_0000 }
        }
    }
}

/// Numeric equality: the zeros are equal, and NaN differs from everything.
impl PartialEq for F32 {
    #[inline]
    fn eq(&self, other: &F32) -> (r: bool) {
        self.le(*other) && other.le(*self)
    }
}

impl vstd::std_specs::cmp::PartialEqSpecImpl for F32 {
    open spec fn obeys_eq_spec() -> bool {
        true
    }

    open spec fn eq_spec(&self, other: &F32) -> bool {
        self.at_most(*other) && other.at_most(*self)
    }
}

/// The single of that pattern.
#[verifier::allow_in_spec]
#[inline]
pub fn single(bits: u32) -> F32
    returns
        (F32 { bits }),
{
    F32 { bits }
}

/// The double of that pattern.
#[verifier::allow_in_spec]
#[inline]
pub fn double(bits: u64) -> F64
    returns
        (F64 { bits }),
{
    F64 { bits }
}

/// What a single pattern without sign denotes, in units of 2^-149.
pub open spec fn single_value(mag: int) -> int {
    if mag < 0x80_0000 {
        mag
    } else {
        (0x80_0000 + mag % 0x80_0000) * pow2((mag / 0x80_0000 - 1) as nat)
    }
}

proof fn lemma_single_value_increases(a: int, b: int)
    requires
        0 <= a < b,
    ensures
        single_value(a) < single_value(b),
{
    let ea = a / 0x80_0000;
    let eb = b / 0x80_0000;
    let fa = a % 0x80_0000;
    let fb = b % 0x80_0000;
    if b >= 0x80_0000 {
        lemma_pow2_pos((eb - 1) as nat);
        if a < 0x80_0000 {
            assert(0x80_0000 <= (0x80_0000 + fb) * pow2((eb - 1) as nat)) by (nonlinear_arith)
                requires
                    fb >= 0,
                    pow2((eb - 1) as nat) >= 1,
            ;
        } else if ea == eb {
            assert((0x80_0000 + fa) * pow2((eb - 1) as nat) < (0x80_0000 + fb) * pow2((eb - 1) as nat))
                by (nonlinear_arith)
                requires
                    fa < fb,
                    pow2((eb - 1) as nat) >= 1,
            ;
        } else {
            lemma_pow2_pos((ea - 1) as nat);
            lemma_pow2_unfold(ea as nat);
            if ea < eb - 1 {
                lemma_pow2_strictly_increases(ea as nat, (eb - 1) as nat);
            }
            let p = pow2((ea - 1) as nat);
            let q = pow2((eb - 1) as nat);
            assert((0x80_0000 + fa) * p < 0x80_0000 * (2 * p)) by (nonlinear_arith)
                requires
                    fa < 0x80_0000,
                    p >= 1,
            ;
            assert(0x80_0000 * (2 * p) <= (0x80_0000 + fb) * q) by (nonlinear_arith)
                requires
                    fb >= 0,
                    2 * p <= q,
                    p >= 1,
            ;
        }
    }
}

/// Comparing two singles compares the numbers they denote.
pub proof fn law_single_order_is_numeric(a: F32, b: F32)
    requires
        !a.nan(),
        !b.nan(),
    ensures
        a.below(b) <==> a.value() < b.value(),
        a.at_most(b) <==> a.value() <= b.value(),
{
    let (m, n) = (a.mag(), b.mag());
    if m < n {
        lemma_single_value_increases(m, n);
    }
    if n < m {
        lemma_single_value_increases(n, m);
    }
    if 0 < m {
        lemma_single_value_increases(0, m);
    }
    if 0 < n {
        lemma_single_value_increases(0, n);
    }
}

/// A double-precision number.
#[derive(Clone, Copy, Debug)]
pub struct F64 {
    pub bits: u64,
}

impl F64 {
    /// The pattern without its sign bit.
    pub open spec fn mag(self) -> int {
        self.bits as int % 0x8000_0000_0000_0000
    }

    pub open spec fn neg(self) -> bool {
        self.bits >= 0x8000_0000_0000_0000
    }

    pub open spec fn nan(self) -> bool {
        self.mag() > 0x7ff0_0000_0000_0000
    }

    pub open spec fn finite(self) -> bool {
        self.mag() < 0x7ff0_0000_0000_0000
    }

    /// Orders the patterns as the numbers they denote; both zeros have key 0.
    pub open spec fn key(self) -> int {
        if self.neg() {
            -self.mag()
        } else {
            self.mag()
        }
    }

    /// The number denoted, in units of 2^-1074.
    pub open spec fn value(self) -> int {
        if self.neg() {
            -double_value(self.mag())
        } else {
            double_value(self.mag())
        }
    }

    /// `self < other`; false when either is not a number.
    pub open spec fn below(self, other: F64) -> bool {
        !self.nan() && !other.nan() && self.key() < other.key()
    }

    /// `self <= other`; false when either is not a number.
    pub open spec fn at_most(self, other: F64) -> bool {
        !self.nan() && !other.nan() && self.key() <= other.key()
    }

    /// The nearest number in `lo..=hi`; what is not a number stays as it is.
    pub open spec fn clamped(self, lo: F64, hi: F64) -> F64 {
        if self.below(lo) {
            lo
        } else if hi.below(self) {
            hi
        } else {
            self
        }
    }

    /// The greater of the two; `other` when `self` is not a number.
    pub open spec fn greater(self, other: F64) -> F64 {
        if self.nan() || self.below(other) {
            other
        } else {
            self
        }
    }

    /// The lesser of the two; `other` when `self` is not a number.
    pub open spec fn lesser(self, other: F64) -> F64 {
        if self.nan() || other.below(self) {
            other
        } else {
            self
        }
    }

    #[verifier::when_used_as_spec(nan)]
    #[inline]
    pub fn is_nan(self) -> (r: bool)
        ensures
            r == self.nan(),
    {
        self.bits % 0x8000_0000_0000_0000 > 0x7ff0_0000_0000_0000
    }

    #[verifier::when_used_as_spec(below)]
    #[inline]
    pub fn lt(self, other: F64) -> (r: bool)
        ensures
            r == self.below(other),
    {
        if self.is_nan() || other.is_nan() {
            return false;
        }
        let a: u64 = self.bits % 0x8000_0000_0000_0000;
        let b: u64 = other.bits % 0x8000_0000_0000_0000;
        if self.bits >= 0x8000_0000_0000_0000 {
            if other.bits >= 0x8000_0000_0000_0000 {
                b < a
            } else {
                a > 0 || b > 0
            }
        } else {
            other.bits < 0x8000_0000_0000_0000 && a < b
        }
    }

    #[verifier::when_used_as_spec(at_most)]
    #[inline]
    pub fn le(self, other: F64) -> (r: bool)
        ensures
            r == self.at_most(other),
    {
        !self.is_nan() && !other.is_nan() && !other.lt(self)
    }

    #[verifier::when_used_as_spec(clamped)]
    #[inline]
    pub fn clamp(self, lo: F64, hi: F64) -> (r: F64)
        requires
            lo.at_most(hi),
        ensures
            r == self.clamped(lo, hi),
    {
        if self.lt(lo) {
            lo
        } else if hi.lt(self) {
            hi
        } else {
            self
        }
    }

    /// The same for bounds that may not be in order: the lower one counts first.
    #[verifier::when_used_as_spec(clamped)]
    #[inline]
    pub fn limit(self, lo: F64, hi: F64) -> (r: F64)
        ensures
            r == self.clamped(lo, hi),
    {
        if self.lt(lo) {
            lo
        } else if hi.lt(self) {
            hi
        } else {
            self
        }
    }

    #[verifier::when_used_as_spec(greater)]
    #[inline]
    pub fn max(self, other: F64) -> (r: F64)
        ensures
            r == self.greater(other),
    {
        if self.is_nan() || self.lt(other) {
            other
        } else {
            self
        }
    }

    #[verifier::when_used_as_spec(lesser)]
    #[inline]
    pub fn min(self, other: F64) -> (r: F64)
        ensures
            r == self.lesser(other),
    {
        if self.is_nan() || other.lt(self) {
            other
        } else {
            self
        }
    }

    /// The same number without its sign.
    pub open spec fn unsigned(self) -> F64 {
        F64 { bits: self.mag() as u64 }
    }

    #[verifier::when_used_as_spec(unsigned)]
    #[inline]
    pub fn abs(self) -> (r: F64)
        ensures
            r == self.unsigned(),
    {
        F64 { bits: self.bits % 0x8000_0000_0000_0000 }
    }

    /// The same number with the other sign.
    pub open spec fn negated(self) -> F64 {
        if self.neg() {
            F64 { bits: (self.bits - 0x8000_0000_0000_0000) as u64 }
        } else {
            F64 { bits: (self.bits + 0x8000_0000_0000_0000) as u64 }
        }
    }

    #[verifier::when_used_as_spec(negated)]
    #[inline]
    pub fn minus(self) -> (r: F64)
        ensures
            r == self.negated(),
    {
        if self.bits >= 0x8000_0000_0000_0000 {
            F64 { bits: self.bits - 0x8000_0000_0000_0000 }
        } else {
            F64 { bits: self.bits + 0x8000_0000_0000_0000 }
        }
    }
}

/// Numeric equality: the zeros are equal, and NaN differs from everything.
impl PartialEq for F64 {
    #[inline]
    fn eq(&self, other: &F64) -> (r: bool) {
        self.le(*other) && other.le(*self)
    }
}

impl vstd::std_specs::cmp::PartialEqSpecImpl for F64 {
    open spec fn obeys_eq_spec() -> bool {
        true
    }

    open spec fn eq_spec(&self, other: &F64) -> bool {
        self.at_most(*other) && other.at_most(*self)
    }
}

/// What a double pattern without sign denotes, in units of 2^-1074.
pub open spec fn double_value(mag: int) -> int {
    if mag < 0x10_0000_0000_0000 {
        mag
    } else {
        (0x10_0000_0000_0000 + mag % 0x10_0000_0000_0000) * pow2((mag / 0x10_0000_0000_0000 - 1) as nat)
    }
}

proof fn lemma_double_value_increases(a: int, b: int)
    requires
        0 <= a < b,
    ensures
        double_value(a) < double_value(b),
{
    let ea = a / 0x10_0000_0000_0000;
    let eb = b / 0x10_0000_0000_0000;
    let fa = a % 0x10_0000_0000_0000;
    let fb = b % 0x10_0000_0000_0000;
    if b >= 0x10_0000_0000_0000 {
        lemma_pow2_pos((eb - 1) as nat);
        if a < 0x10_0000_0000_0000 {
            assert(0x10_0000_0000_0000 <= (0x10_0000_0000_0000 + fb) * pow2((eb - 1) as nat)) by (nonlinear_arith)
                requires
                    fb >= 0,
                    pow2((eb - 1) as nat) >= 1,
            ;
        } else if ea == eb {
            assert((0x10_0000_0000_0000 + fa) * pow2((eb - 1) as nat) < (0x10_0000_0000_0000 + fb) * pow2((eb - 1) as nat))
                by (nonlinear_arith)
                requires
                    fa < fb,
                    pow2((eb - 1) as nat) >= 1,
            ;
        } else {
            lemma_pow2_pos((ea - 1) as nat);
            lemma_pow2_unfold(ea as nat);
            if ea < eb - 1 {
                lemma_pow2_strictly_increases(ea as nat, (eb - 1) as nat);
            }
            let p = pow2((ea - 1) as nat);
            let q = pow2((eb - 1) as nat);
            assert((0x10_0000_0000_0000 + fa) * p < 0x10_0000_0000_0000 * (2 * p)) by (nonlinear_arith)
                requires
                    fa < 0x10_0000_0000_0000,
                    p >= 1,
            ;
            assert(0x10_0000_0000_0000 * (2 * p) <= (0x10_0000_0000_0000 + fb) * q) by (nonlinear_arith)
                requires
                    fb >= 0,
                    2 * p <= q,
                    p >= 1,
            ;
        }
    }
}

/// Comparing two doubles compares the numbers they denote.
pub proof fn law_double_order_is_numeric(a: F64, b: F64)
    requires
        !a.nan(),
        !b.nan(),
    ensures
        a.below(b) <==> a.value() < b.value(),
        a.at_most(b) <==> a.value() <= b.value(),
{
    let (m, n) = (a.mag(), b.mag());
    if m < n {
        lemma_double_value_increases(m, n);
    }
    if n < m {
        lemma_double_value_increases(n, m);
    }
    if 0 < m {
        lemma_double_value_increases(0, m);
    }
    if 0 < n {
        lemma_double_value_increases(0, n);
    }
}

/// The single pattern of `m * 2^(e - 1)` units, for a positive `m` below 2^24.
pub open spec fn scaled_bits(m: int, e: int) -> int
    decreases 0x100_0000 - m,
{
    if m <= 0 {
        0
    } else if m >= 0x80_0000 {
        e * 0x80_0000 + (m - 0x80_0000)
    } else {
        scaled_bits(2 * m, e - 1)
    }
}

pub(crate) proof fn lemma_scaled_value(m: int, e: int)
    requires
        0 < m < 0x100_0000,
        24 <= e < 255,
    ensures
        0x80_0000 <= scaled_bits(m, e) < 0x7f80_0000,
        single_value(scaled_bits(m, e)) == m * pow2((e - 1) as nat),
{
    lemma2_to64();
    assert(m * pow2(23) >= 0x80_0000) by (nonlinear_arith)
        requires
            m >= 1,
            pow2(23) == 0x80_0000,
    ;
    lemma_scaled_value_from(m, e, 23);
}

proof fn lemma_scaled_value_from(m: int, e: int, room: int)
    requires
        0 < m < 0x100_0000,
        0 <= room,
        room < e < 255,
        m * pow2(room as nat) >= 0x80_0000,
    ensures
        0x80_0000 <= scaled_bits(m, e) < 0x7f80_0000,
        single_value(scaled_bits(m, e)) == m * pow2((e - 1) as nat),
    decreases 0x100_0000 - m,
{
    if m >= 0x80_0000 {
        let b = e * 0x80_0000 + (m - 0x80_0000);
        assert(b / 0x80_0000 == e && b % 0x80_0000 == m - 0x80_0000);
    } else {
        if room == 0 {
            lemma2_to64();
            assert(m * pow2(0) == m) by (nonlinear_arith)
                requires
                    pow2(0) == 1,
            ;
        }
        lemma_pow2_unfold((e - 1) as nat);
        lemma_pow2_unfold(room as nat);
        let p = pow2((room - 1) as nat);
        assert((2 * m) * p == m * (2 * p)) by (nonlinear_arith);
        lemma_scaled_value_from(2 * m, e - 1, room - 1);
        let q = pow2((e - 2) as nat);
        assert((2 * m) * q == m * (2 * q)) by (nonlinear_arith);
    }
}

impl F32 {
    /// The number `m / 2^24`.
    pub open spec fn unit(m: int) -> F32 {
        F32 { bits: scaled_bits(m, 126) as u32 }
    }

    /// The number `(m - 2^23) / 2^23`.
    pub open spec fn centred(m: int) -> F32 {
        if m >= 0x80_0000 {
            F32 { bits: scaled_bits(m - 0x80_0000, 127) as u32 }
        } else {
            F32 { bits: (0x8000_0000 + scaled_bits(0x80_0000 - m, 127)) as u32 }
        }
    }

    /// `m * 2^(e - 1)` units, without a sign.
    #[inline]
    fn scaled(m: u32, e: u32) -> (r: u32)
        requires
            m < 0x100_0000,
            24 <= e < 255,
        ensures
            r == scaled_bits(m as int, e as int),
            r < 0x7f80_0000,
    {
        if m == 0 {
            return 0;
        }
        let mut n: u32 = m;
        let mut k: u32 = e;
        proof {
            lemma_scaled_value(m as int, e as int);
            lemma2_to64();
            assert(m * pow2(23) >= 0x80_0000);
        }
        let ghost mut room: int = 23;
        while n < 0x80_0000
            invariant
                0 < n < 0x100_0000,
                0 <= room < k < 255,
                n * pow2(room as nat) >= 0x80_0000,
                scaled_bits(n as int, k as int) == scaled_bits(m as int, e as int),
            decreases 0x100_0000 - n,
        {
            proof {
                if room == 0 {
                    lemma2_to64();
                    assert(n * pow2(0) == n) by (nonlinear_arith)
                        requires
                            pow2(0) == 1,
                    ;
                }
                lemma_pow2_unfold(room as nat);
                let p = pow2((room - 1) as nat);
                assert((2 * n) * p == n * (2 * p)) by (nonlinear_arith);
                room = room - 1;
            }
            n = n * 2;
            k = k - 1;
        }
        assert(k * 0x80_0000 + (n - 0x80_0000) < 0x7f80_0000);
        k * 0x80_0000 + (n - 0x80_0000)
    }

    /// The number `m / 2^24`, exactly.
    #[inline]
    pub fn from_unit(m: u32) -> (r: F32)
        requires
            m < 0x100_0000,
        ensures
            r == F32::unit(m as int),
    {
        F32 { bits: F32::scaled(m, 126) }
    }

    /// The number `(m - 2^23) / 2^23`, exactly.
    #[inline]
    pub fn from_centred(m: u32) -> (r: F32)
        requires
            m < 0x100_0000,
        ensures
            r == F32::centred(m as int),
    {
        if m >= 0x80_0000 {
            F32 { bits: F32::scaled(m - 0x80_0000, 127) }
        } else {
            F32 { bits: 0x8000_0000 + F32::scaled(0x80_0000 - m, 127) }
        }
    }
}

/// `unit` denotes `m / 2^24`, a number from 0 up to but not including 1.
pub proof fn law_unit_is_exact(m: int)
    requires
        0 <= m < 0x100_0000,
    ensures
        F32::unit(m).value() == m * pow2(125),
        single(0).at_most(F32::unit(m)),
        F32::unit(m).below(single(0x3f80_0000)),
{
    if m > 0 {
        lemma_scaled_value(m, 126);
        let one = single(0x3f80_0000);
        assert(one.value() == 0x80_0000 * pow2(126));
        lemma_pow2_unfold(126);
        lemma_pow2_pos(125);
        assert(m * pow2(125) < 0x80_0000 * (2 * pow2(125))) by (nonlinear_arith)
            requires
                m < 0x100_0000,
                pow2(125) > 0,
        ;
        law_single_order_is_numeric(F32::unit(m), one);
    }
}

/// `centred` denotes `(m - 2^23) / 2^23`, a number from -1 up to but not including 1.
pub proof fn law_centred_is_exact(m: int)
    requires
        0 <= m < 0x100_0000,
    ensures
        F32::centred(m).value() == (m - 0x80_0000) * pow2(126),
        single(0xbf80_0000).at_most(F32::centred(m)),
        F32::centred(m).below(single(0x3f80_0000)),
{
    let one = single(0x3f80_0000);
    let minus = single(0xbf80_0000);
    assert(one.value() == 0x80_0000 * pow2(126));
    assert(minus.value() == -(0x80_0000 * pow2(126)));
    lemma_pow2_pos(126);
    let d = m - 0x80_0000;
    if d > 0 {
        lemma_scaled_value(d, 127);
    } else if d < 0 {
        lemma_scaled_value(-d, 127);
        assert((-d) * pow2(126) == -(d * pow2(126))) by (nonlinear_arith);
    } else {
        assert(d * pow2(126) == 0) by (nonlinear_arith)
            requires
                d == 0,
        ;
    }
    assert(-(0x80_0000 * pow2(126)) <= d * pow2(126) < 0x80_0000 * pow2(126)) by (nonlinear_arith)
        requires
            -0x80_0000 <= d < 0x80_0000,
            pow2(126) > 0,
    ;
    law_single_order_is_numeric(F32::centred(m), one);
    law_single_order_is_numeric(minus, F32::centred(m));
}

} // verus!
