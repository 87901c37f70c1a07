//! What IEEE 754 arithmetic gives on doubles; see `rounding` for singles.
use crate::calc::{Calc, Op, Width};
use crate::num::{double, double_value, law_double_order_is_numeric, F32, F64};
use crate::rounding::apart;
use vstd::arithmetic::power2::{
    lemma2_to64, lemma_pow2_adds, lemma_pow2_pos, lemma_pow2_strictly_increases, lemma_pow2_unfold,
    pow2,
};
use vstd::prelude::*;

verus! {

/// One, in the units that doubles count in.
pub open spec fn unit() -> int {
    pow2(1074) as int
}

/// Whether no double is nearer to `n / d` units than `x`, and where one is as near, `x` is
/// the even one.
#[verifier::opaque]
pub open spec fn nearest(x: F64, n: int, d: int) -> bool {
    &&& x.finite()
    &&& forall|y: F64|
        y.finite() ==> {
            let ex = apart(x.value() * d, n);
            let ey = apart(#[trigger] y.value() * d, n);
            &&& ex <= ey
            &&& ex == ey && x.value() != y.value() ==> x.bits % 2 == 0 && y.bits % 2 == 1
        }
}

/// The number halfway from the largest double to the next power of two, in units: what is
/// no smaller rounds to an infinity.
pub open spec fn edge() -> int {
    0x3f_ffff_ffff_ffff * pow2(2044) as int
}

/// Whether `n / d` units rounds to a finite double.
pub open spec fn reached(n: int, d: int) -> bool {
    apart(n, 0) < edge() * d
}

/// Whether `x` is what `n / d` units rounds to: the nearest double, or an infinity on the
/// same side.
pub open spec fn rounded(x: F64, n: int, d: int) -> bool {
    if reached(n, d) {
        nearest(x, n, d)
    } else if n > 0 {
        x == (F64 { bits: 0x7ff0_0000_0000_0000 })
    } else {
        x == (F64 { bits: 0xfff0_0000_0000_0000 })
    }
}

/// Whether an arithmetic rounds to nearest on doubles, leaves the remainder of a division
/// rounded, converts singles exactly and drops what is behind the point exactly.
#[verifier::opaque]
pub open spec fn rounds_doubles<K: Fn(Op, Width, u64, u64) -> u64>(c: &Calc<K>) -> bool {
    &&& forall|a: F64, b: F64|
        a.finite() && b.finite() ==> rounded(#[trigger] a.add(c, b), a.value() + b.value(), 1)
    &&& forall|a: F64, b: F64|
        a.finite() && b.finite() ==> rounded(#[trigger] a.sub(c, b), a.value() - b.value(), 1)
    &&& forall|a: F64, b: F64|
        a.finite() && b.finite() ==> rounded(#[trigger] a.mul(c, b), a.value() * b.value(), unit())
    &&& forall|a: F64, b: F64|
        a.finite() && b.finite() && b.value() > 0 ==> rounded(
            #[trigger] a.div(c, b),
            a.value() * unit(),
            b.value(),
        )
    &&& forall|a: F64, b: F64|
        a.finite() && b.finite() && b.value() > 0 ==> nearest(
            #[trigger] a.rem_euclid(c, b),
            a.value() % b.value(),
            1,
        )
    &&& forall|n: u64| nearest(#[trigger] F64::of_count(c, n), n * unit(), 1)
    &&& forall|a: F32|
        a.finite() ==> (#[trigger] a.to_f64(c)).finite() && a.to_f64(c).value() == a.value()
            * pow2(925)
    &&& forall|a: F64|
        a.finite() && 0 <= a.value() && a.value() / unit() <= i64::MAX ==> #[trigger] a.to_int(c)
            == a.value() / unit()
}

pub proof fn lemma_sub<K: Fn(Op, Width, u64, u64) -> u64>(c: &Calc<K>, a: F64, b: F64)
    requires
        rounds_doubles(c),
        a.finite(),
        b.finite(),
        reached(a.value() - b.value(), 1),
    ensures
        nearest(a.sub(c, b), a.value() - b.value(), 1),
        a.sub(c, b).finite(),
{
    reveal(rounds_doubles);
    lemma_finite(a.sub(c, b), a.value() - b.value(), 1);
}

/// Without its sign, a double denotes the absolute value.
pub proof fn lemma_abs(x: F64)
    requires
        x.finite(),
    ensures
        x.abs().finite(),
        x.abs().value() == apart(x.value(), 0),
{
    law_double_order_is_numeric(F64 { bits: 0 }, x.abs());
    assert(double_value(0) == 0);
    assert(x.abs().mag() == x.mag());
}

/// A remainder lies from zero to the divisor.
pub proof fn lemma_remainder<K: Fn(Op, Width, u64, u64) -> u64>(c: &Calc<K>, a: F64, b: F64)
    requires
        rounds_doubles(c),
        a.finite(),
        b.finite(),
        b.value() > 0,
    ensures
        nearest(a.rem_euclid(c, b), a.value() % b.value(), 1),
        a.rem_euclid(c, b).finite(),
        0 <= a.rem_euclid(c, b).value() <= b.value(),
{
    reveal(rounds_doubles);
    let (r, n) = (a.rem_euclid(c, b), a.value() % b.value());
    lemma_finite(r, n, 1);
    let zero = F64 { bits: 0 };
    assert(double_value(0) == 0);
    assert(0 <= n < b.value()) by (nonlinear_arith)
        requires
            n == a.value() % b.value(),
            b.value() > 0,
    ;
    lemma_at_least(r, n, 1, zero);
    lemma_at_most(r, n, 1, b);
}

/// What the largest double is, and that no double is larger.
pub proof fn lemma_largest(x: F64)
    requires
        x.finite(),
    ensures
        double(0x7fef_ffff_ffff_ffff).value() == 0x1f_ffff_ffff_ffff * pow2(2045),
        edge() == double(0x7fef_ffff_ffff_ffff).value() + pow2(2044),
        apart(x.value(), 0) <= double(0x7fef_ffff_ffff_ffff).value(),
        pow2(2044) > pow2(1084),
{
    let top = double(0x7fef_ffff_ffff_ffff);
    assert(0x7fef_ffff_ffff_ffffint / 0x10_0000_0000_0000 == 2046 && 0x7fef_ffff_ffff_ffffint % 0x10_0000_0000_0000 == 0xf_ffff_ffff_ffff);
    assert(top.value() == 0x1f_ffff_ffff_ffff * pow2(2045));
    lemma_pow2_unfold(2045);
    lemma_pow2_strictly_increases(1084, 2044);
    law_double_order_is_numeric(x.abs(), top);
    lemma_abs(x);
}

/// What is no larger than the largest double rounds to a double.
pub proof fn lemma_in_reach(n: int, d: int)
    requires
        d > 0,
        apart(n, 0) <= double(0x7fef_ffff_ffff_ffff).value() * d,
    ensures
        reached(n, d),
{
    let top = double(0x7fef_ffff_ffff_ffff);
    lemma_largest(top);
    lemma_pow2_pos(2044);
    assert(top.value() * d < edge() * d) by (nonlinear_arith)
        requires
            top.value() < edge(),
            d > 0,
    ;
}

/// A sum, whatever its size.
pub proof fn lemma_sum<K: Fn(Op, Width, u64, u64) -> u64>(c: &Calc<K>, a: F64, b: F64)
    requires
        rounds_doubles(c),
        a.finite(),
        b.finite(),
    ensures
        rounded(a.add(c, b), a.value() + b.value(), 1),
{
    reveal(rounds_doubles);
}

/// A difference, whatever its size.
pub proof fn lemma_difference<K: Fn(Op, Width, u64, u64) -> u64>(c: &Calc<K>, a: F64, b: F64)
    requires
        rounds_doubles(c),
        a.finite(),
        b.finite(),
    ensures
        rounded(a.sub(c, b), a.value() - b.value(), 1),
{
    reveal(rounds_doubles);
}

/// A single is converted exactly.
pub proof fn lemma_converted<K: Fn(Op, Width, u64, u64) -> u64>(c: &Calc<K>, a: F32)
    requires
        rounds_doubles(c),
        a.finite(),
    ensures
        a.to_f64(c).finite(),
        a.to_f64(c).value() == a.value() * pow2(925),
{
    reveal(rounds_doubles);
}

/// The whole part of a number that is not negative.
pub proof fn lemma_truncated<K: Fn(Op, Width, u64, u64) -> u64>(c: &Calc<K>, a: F64)
    requires
        rounds_doubles(c),
        a.finite(),
        0 <= a.value(),
        a.value() / unit() <= i64::MAX,
    ensures
        a.to_int(c) == a.value() / unit(),
{
    reveal(rounds_doubles);
}

pub proof fn lemma_of_count<K: Fn(Op, Width, u64, u64) -> u64>(c: &Calc<K>, n: u64)
    requires
        rounds_doubles(c),
    ensures
        nearest(F64::of_count(c, n), n * unit(), 1),
        F64::of_count(c, n).finite(),
{
    reveal(rounds_doubles);
    lemma_finite(F64::of_count(c, n), n * unit(), 1);
}

/// Counts below 2^53 are written exactly.
pub proof fn lemma_count<K: Fn(Op, Width, u64, u64) -> u64>(c: &Calc<K>, n: u64)
    requires
        rounds_doubles(c),
        n < 0x20_0000_0000_0000,
    ensures
        F64::of_count(c, n).finite(),
        F64::of_count(c, n).value() == n * unit(),
{
    lemma_of_count(c, n);
    lemma_grid(n as int, 1075);
    lemma_exact(F64::of_count(c, n), n * unit(), 1, grid(n as int, 1075));
}

/// The double pattern of `m * 2^(e - 1)` units, for a positive `m` below 2^53.
pub open spec fn scaled_double(m: int, e: int) -> int
    decreases 0x20_0000_0000_0000 - m,
{
    if m <= 0 {
        0
    } else if m >= 0x10_0000_0000_0000 {
        e * 0x10_0000_0000_0000 + (m - 0x10_0000_0000_0000)
    } else {
        scaled_double(2 * m, e - 1)
    }
}

proof fn lemma_scaled_double(m: int, e: int)
    requires
        0 < m < 0x20_0000_0000_0000,
        53 <= e < 2047,
    ensures
        0x10_0000_0000_0000 <= scaled_double(m, e) < 0x7ff0_0000_0000_0000,
        double_value(scaled_double(m, e)) == m * pow2((e - 1) as nat),
{
    lemma2_to64();
    lemma_pow2_adds(20, 32);
    assert(m * pow2(52) >= 0x10_0000_0000_0000) by (nonlinear_arith)
        requires
            m >= 1,
            pow2(52) == 0x10_0000 * 0x1_0000_0000,
    ;
    lemma_scaled_from(m, e, 52);
}

proof fn lemma_scaled_from(m: int, e: int, room: int)
    requires
        0 < m < 0x20_0000_0000_0000,
        0 <= room,
        room < e < 2047,
        m * pow2(room as nat) >= 0x10_0000_0000_0000,
    ensures
        0x10_0000_0000_0000 <= scaled_double(m, e) < 0x7ff0_0000_0000_0000,
        double_value(scaled_double(m, e)) == m * pow2((e - 1) as nat),
    decreases 0x20_0000_0000_0000 - m,
{
    if m >= 0x10_0000_0000_0000 {
        let b = e * 0x10_0000_0000_0000 + (m - 0x10_0000_0000_0000);
        assert(b / 0x10_0000_0000_0000 == e && b % 0x10_0000_0000_0000 == m - 0x10_0000_0000_0000);
    } else {
        if room == 0 {
            lemma2_to64();
            assert(m * pow2(0) == m) by (nonlinear_arith)
                requires
                    pow2(0) == 1,
            ;
        }
        lemma_pow2_unfold((e - 1) as nat);
        lemma_pow2_unfold(room as nat);
        let p = pow2((room - 1) as nat);
        assert((2 * m) * p == m * (2 * p)) by (nonlinear_arith);
        lemma_scaled_from(2 * m, e - 1, room - 1);
        let q = pow2((e - 2) as nat);
        assert((2 * m) * q == m * (2 * q)) by (nonlinear_arith);
    }
}

/// A rounded number is finite.
pub proof fn lemma_finite(x: F64, n: int, d: int)
    requires
        nearest(x, n, d),
    ensures
        x.finite(),
{
    reveal(nearest);
}

pub proof fn lemma_add<K: Fn(Op, Width, u64, u64) -> u64>(c: &Calc<K>, a: F64, b: F64)
    requires
        rounds_doubles(c),
        a.finite(),
        b.finite(),
        reached(a.value() + b.value(), 1),
    ensures
        nearest(a.add(c, b), a.value() + b.value(), 1),
        a.add(c, b).finite(),
{
    reveal(rounds_doubles);
    lemma_finite(a.add(c, b), a.value() + b.value(), 1);
}

pub proof fn lemma_mul<K: Fn(Op, Width, u64, u64) -> u64>(c: &Calc<K>, a: F64, b: F64)
    requires
        rounds_doubles(c),
        a.finite(),
        b.finite(),
        reached(a.value() * b.value(), unit()),
    ensures
        nearest(a.mul(c, b), a.value() * b.value(), unit()),
        a.mul(c, b).finite(),
{
    reveal(rounds_doubles);
    lemma_finite(a.mul(c, b), a.value() * b.value(), unit());
}

pub proof fn lemma_div<K: Fn(Op, Width, u64, u64) -> u64>(c: &Calc<K>, a: F64, b: F64)
    requires
        rounds_doubles(c),
        a.finite(),
        b.finite(),
        b.value() > 0,
        reached(a.value() * unit(), b.value()),
    ensures
        nearest(a.div(c, b), a.value() * unit(), b.value()),
        a.div(c, b).finite(),
{
    reveal(rounds_doubles);
    lemma_finite(a.div(c, b), a.value() * unit(), b.value());
}

/// Rounding keeps the order.
pub proof fn lemma_order(x: F64, n: int, y: F64, m: int, d: int)
    requires
        nearest(x, n, d),
        nearest(y, m, d),
        d > 0,
        n <= m,
    ensures
        x.value() <= y.value(),
{
    reveal(nearest);
    let (u, v) = (x.value() * d, y.value() * d);
    if x.value() > y.value() {
        assert(u > v) by (nonlinear_arith)
            requires
                u == x.value() * d,
                v == y.value() * d,
                x.value() > y.value(),
                d > 0,
        ;
        assert(apart(u, n) <= apart(v, n));
        assert(apart(v, m) <= apart(u, m));
        assert(n == m);
        assert(false);
    }
}

/// A double that is not above the exact number is not above the rounded one.
pub proof fn lemma_at_least(x: F64, n: int, d: int, y: F64)
    requires
        nearest(x, n, d),
        d > 0,
        y.finite(),
        y.value() * d <= n,
    ensures
        y.value() <= x.value(),
{
    reveal(nearest);
    let (u, v) = (x.value() * d, y.value() * d);
    if x.value() < y.value() {
        assert(u < v) by (nonlinear_arith)
            requires
                u == x.value() * d,
                v == y.value() * d,
                x.value() < y.value(),
                d > 0,
        ;
        assert(apart(u, n) <= apart(v, n));
    }
}

/// A double that is not below the exact number is not below the rounded one.
pub proof fn lemma_at_most(x: F64, n: int, d: int, y: F64)
    requires
        nearest(x, n, d),
        d > 0,
        y.finite(),
        n <= y.value() * d,
    ensures
        x.value() <= y.value(),
{
    reveal(nearest);
    let (u, v) = (x.value() * d, y.value() * d);
    if x.value() > y.value() {
        assert(u > v) by (nonlinear_arith)
            requires
                u == x.value() * d,
                v == y.value() * d,
                x.value() > y.value(),
                d > 0,
        ;
        assert(apart(u, n) <= apart(v, n));
    }
}

/// What can be written exactly is.
pub proof fn lemma_exact(x: F64, n: int, d: int, y: F64)
    requires
        nearest(x, n, d),
        d > 0,
        y.finite(),
        y.value() * d == n,
    ensures
        x.value() == y.value(),
{
    lemma_at_least(x, n, d, y);
    lemma_at_most(x, n, d, y);
}

/// The double that denotes `k * 2^(e - 1)` units, for a `k` below 2^53.
pub open spec fn grid(k: int, e: int) -> F64 {
    if k == 0 {
        F64 { bits: 0 }
    } else if k > 0 {
        F64 { bits: scaled_double(k, e) as u64 }
    } else {
        F64 { bits: (scaled_double(-k, e) + 0x8000_0000_0000_0000) as u64 }
    }
}

pub proof fn lemma_grid(k: int, e: int)
    requires
        -0x20_0000_0000_0000 < k < 0x20_0000_0000_0000,
        53 <= e < 2047,
    ensures
        grid(k, e).finite(),
        grid(k, e).value() == k * pow2((e - 1) as nat),
{
    let x = grid(k, e);
    if k > 0 {
        lemma_scaled_double(k, e);
        assert(x.mag() == scaled_double(k, e));
    } else if k < 0 {
        lemma_scaled_double(-k, e);
        assert(x.mag() == scaled_double(-k, e));
        assert(-((-k) * pow2((e - 1) as nat)) == k * pow2((e - 1) as nat)) by (nonlinear_arith);
    } else {
        assert(double_value(0) == 0);
    }
}

/// A rounded number is less than one grid step away from the exact one.
pub proof fn lemma_error(x: F64, n: int, d: int, e: int)
    requires
        nearest(x, n, d),
        d > 0,
        53 <= e < 2047,
        apart(n, 0) < 0x10_0000_0000_0000 * (pow2((e - 1) as nat) * d),
    ensures
        apart(x.value() * d, n) < pow2((e - 1) as nat) * d,
{
    reveal(nearest);
    let g = pow2((e - 1) as nat);
    lemma_pow2_pos((e - 1) as nat);
    let s = g * d;
    assert(s > 0) by (nonlinear_arith)
        requires
            s == g * d,
            g > 0,
            d > 0,
    ;
    let k = n / s;
    assert(k * s <= n < k * s + s && -0x10_0000_0000_0001 < k < 0x10_0000_0000_0000) by (nonlinear_arith)
        requires
            k == n / s,
            s > 0,
            -(0x10_0000_0000_0000 * s) < n < 0x10_0000_0000_0000 * s,
    ;
    lemma_grid(k, e);
    let y = grid(k, e);
    assert(y.value() * d == k * s) by (nonlinear_arith)
        requires
            y.value() == k * g,
            s == g * d,
    ;
    assert(apart(x.value() * d, n) <= apart(y.value() * d, n));
}

/// Whether a double lies within 2^p of zero.
pub open spec fn small(x: F64, p: nat) -> bool {
    x.finite() && apart(x.value(), 0) <= pow2(p + 1074)
}

proof fn lemma_top(p: nat, d: int)
    requires
        p <= 971,
        d > 0,
    ensures
        pow2(p + 1074) * d < edge() * d,
{
    let top = double(0x7fef_ffff_ffff_ffff).value();
    assert(0x7fef_ffff_ffff_ffffint / 0x10_0000_0000_0000 == 2046 && 0x7fef_ffff_ffff_ffffint % 0x10_0000_0000_0000 == 0xf_ffff_ffff_ffff);
    assert(top == 0x1f_ffff_ffff_ffff * pow2(2045));
    lemma_pow2_pos(2045);
    if p < 971 {
        lemma_pow2_strictly_increases(p + 1074, 2045);
    }
    let a = pow2(p + 1074) as int;
    lemma_largest(double(0x7fef_ffff_ffff_ffff));
    lemma_pow2_pos(2044);
    assert(a * d < edge() * d) by (nonlinear_arith)
        requires
            a < edge(),
            d > 0,
    ;
}

proof fn lemma_small_rounded(x: F64, n: int, d: int, p: nat)
    requires
        nearest(x, n, d),
        d > 0,
        p <= 971,
        apart(n, 0) <= pow2(p + 1074) * d,
    ensures
        small(x, p),
{
    lemma_finite(x, n, d);
    lemma_grid(1, p as int + 1075);
    lemma_grid(-1, p as int + 1075);
    let a = pow2(p + 1074) as int;
    assert((-1 * a) * d == -(a * d)) by (nonlinear_arith);
    lemma_at_most(x, n, d, grid(1, p as int + 1075));
    lemma_at_least(x, n, d, grid(-1, p as int + 1075));
}

/// Sums of small numbers are small.
pub proof fn lemma_add_small<K: Fn(Op, Width, u64, u64) -> u64>(c: &Calc<K>, a: F64, b: F64, p: nat)
    requires
        rounds_doubles(c),
        small(a, p),
        small(b, p),
        p < 971,
    ensures
        nearest(a.add(c, b), a.value() + b.value(), 1),
        small(a.add(c, b), p + 1),
{
    lemma_pow2_unfold(p + 1075);
    lemma_top(p + 1, 1);
    lemma_add(c, a, b);
    lemma_small_rounded(a.add(c, b), a.value() + b.value(), 1, p + 1);
}

/// Differences of small numbers are small.
pub proof fn lemma_sub_small<K: Fn(Op, Width, u64, u64) -> u64>(c: &Calc<K>, a: F64, b: F64, p: nat)
    requires
        rounds_doubles(c),
        small(a, p),
        small(b, p),
        p < 971,
    ensures
        nearest(a.sub(c, b), a.value() - b.value(), 1),
        small(a.sub(c, b), p + 1),
{
    lemma_pow2_unfold(p + 1075);
    lemma_top(p + 1, 1);
    lemma_sub(c, a, b);
    lemma_small_rounded(a.sub(c, b), a.value() - b.value(), 1, p + 1);
}

/// Products of small numbers are small.
pub proof fn lemma_mul_small<K: Fn(Op, Width, u64, u64) -> u64>(c: &Calc<K>, a: F64, p: nat, b: F64, q: nat)
    requires
        rounds_doubles(c),
        small(a, p),
        small(b, q),
        p + q <= 971,
    ensures
        nearest(a.mul(c, b), a.value() * b.value(), unit()),
        small(a.mul(c, b), p + q),
{
    let (x, y, u) = (pow2(p + 1074) as int, pow2(q + 1074) as int, unit());
    let z = pow2(p + q + 1074) as int;
    lemma_pow2_pos(1074);
    lemma_pow2_adds(p, 1074);
    lemma_pow2_adds(q, 1074);
    lemma_pow2_adds(p + q, 1074);
    lemma_pow2_adds(p, q);
    lemma_pow2_pos(p);
    lemma_pow2_pos(q);
    let (v, w) = (a.value(), b.value());
    assert(x * y == z * u) by (nonlinear_arith)
        requires
            x == pow2(p) * u,
            y == pow2(q) * u,
            z == (pow2(p) * pow2(q)) * u,
    ;
    assert(-(x * y) <= v * w <= x * y) by (nonlinear_arith)
        requires
            -x <= v <= x,
            -y <= w <= y,
    ;
    lemma_top(p + q, u);
    lemma_mul(c, a, b);
    lemma_small_rounded(a.mul(c, b), v * w, u, p + q);
}

} // verus!
