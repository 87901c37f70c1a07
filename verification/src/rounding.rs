//! What IEEE 754 arithmetic gives: every result is the number nearest to the exact one.
//!
//! The engine's contracts hold of any arithmetic. The laws that speak of numbers, and not
//! only of the operations that made them, hold of arithmetic that rounds to nearest:
//! `rounds` and `rounds_doubles` say that a `Calc` does. They say nothing of sines, powers
//! and logarithms, whose precision no standard fixes.
use crate::calc::{Calc, Op, Width};
use crate::num::{
    law_single_order_is_numeric, lemma_scaled_value, scaled_bits, single, single_value, F32,
};
use vstd::arithmetic::power2::{
    lemma2_to64, lemma_pow2_adds, lemma_pow2_pos, lemma_pow2_strictly_increases, lemma_pow2_unfold,
    pow2,
};
use vstd::prelude::*;

verus! {

/// One, in the units that singles count in.
pub open spec fn one() -> int {
    pow2(149) as int
}

/// How far two numbers are apart.
pub open spec fn apart(a: int, b: int) -> int {
    if a < b {
        b - a
    } else {
        a - b
    }
}

/// Whether no single is nearer to `n / d` units than `x`, and where one is as near, `x` is
/// the even one.
#[verifier::opaque]
pub open spec fn nearest(x: F32, n: int, d: int) -> bool {
    &&& x.finite()
    &&& forall|y: F32|
        y.finite() ==> {
            let ex = apart(x.value() * d, n);
            let ey = apart(#[trigger] y.value() * d, n);
            &&& ex <= ey
            &&& ex == ey && x.value() != y.value() ==> x.bits % 2 == 0 && y.bits % 2 == 1
        }
}

/// The number halfway from the largest single to the next power of two, in units: what is
/// no smaller rounds to an infinity.
pub open spec fn edge() -> int {
    0x1ff_ffff * pow2(252) as int
}

/// Whether `n / d` units rounds to a finite single.
pub open spec fn reached(n: int, d: int) -> bool {
    apart(n, 0) < edge() * d
}

/// Whether `x` is what `n / d` units rounds to: the nearest single, or an infinity on the
/// same side.
pub open spec fn rounded(x: F32, n: int, d: int) -> bool {
    if reached(n, d) {
        nearest(x, n, d)
    } else if n > 0 {
        x == (F32 { bits: 0x7f80_0000 })
    } else {
        x == (F32 { bits: 0xff80_0000 })
    }
}

/// Whether an arithmetic rounds to nearest on singles, takes roots that lie between the
/// numbers around the exact ones, leaves the remainder of a division rounded, rounds down
/// exactly, drops what is behind the point exactly, and rounds whole numbers to themselves.
#[verifier::opaque]
pub open spec fn rounds<K: Fn(Op, Width, u64, u64) -> u64>(c: &Calc<K>) -> bool {
    &&& forall|a: F32, b: F32|
        a.finite() && b.finite() ==> rounded(#[trigger] a.add(c, b), a.value() + b.value(), 1)
    &&& forall|a: F32, b: F32|
        a.finite() && b.finite() ==> rounded(#[trigger] a.sub(c, b), a.value() - b.value(), 1)
    &&& forall|a: F32, b: F32|
        a.finite() && b.finite() ==> rounded(#[trigger] a.mul(c, b), a.value() * b.value(), one())
    &&& forall|a: F32, b: F32|
        a.finite() && b.finite() && b.value() > 0 ==> rounded(
            #[trigger] a.div(c, b),
            a.value() * one(),
            b.value(),
        )
    &&& forall|a: F32, b: F32|
        a.finite() && b.finite() && b.value() > 0 ==> nearest(
            #[trigger] a.rem_euclid(c, b),
            a.value() % b.value(),
            1,
        )
    &&& forall|a: F32|
        a.finite() && a.value() >= 0 ==> (#[trigger] a.sqrt(c)).finite() && a.sqrt(c).value() >= 0
    &&& forall|a: F32, y: F32|
        #![trigger a.sqrt(c), y.value()]
        a.finite() && a.value() >= 0 && y.finite() && y.value() >= 0 ==> {
            &&& y.value() * y.value() <= a.value() * one() ==> y.value() <= a.sqrt(c).value()
            &&& a.value() * one() <= y.value() * y.value() ==> a.sqrt(c).value() <= y.value()
        }
    &&& forall|n: i64| nearest(#[trigger] F32::of_int(c, n), n * one(), 1)
    &&& forall|n: u64| nearest(#[trigger] F32::of_count(c, n), n * one(), 1)
    &&& forall|a: F32|
        a.finite() ==> (#[trigger] a.floor(c)).finite() && a.floor(c).value() == a.value() / one()
            * one()
    &&& forall|a: F32|
        a.finite() && a.value() % one() == 0 ==> (#[trigger] a.round(c)).finite() && a.round(c).value()
            == a.value()
    &&& forall|a: F32|
        a.finite() && (a.value() % one() == 0 || a.value() >= 0) && i64::MIN <= a.value() / one()
            <= i64::MAX ==> #[trigger] a.to_int(c) == a.value() / one()
}

/// A rounded number is finite.
pub proof fn lemma_finite(x: F32, n: int, d: int)
    requires
        nearest(x, n, d),
    ensures
        x.finite(),
{
    reveal(nearest);
}

pub proof fn lemma_add<K: Fn(Op, Width, u64, u64) -> u64>(c: &Calc<K>, a: F32, b: F32)
    requires
        rounds(c),
        a.finite(),
        b.finite(),
        reached(a.value() + b.value(), 1),
    ensures
        nearest(a.add(c, b), a.value() + b.value(), 1),
        a.add(c, b).finite(),
{
    reveal(rounds);
    lemma_finite(a.add(c, b), a.value() + b.value(), 1);
}

pub proof fn lemma_sub<K: Fn(Op, Width, u64, u64) -> u64>(c: &Calc<K>, a: F32, b: F32)
    requires
        rounds(c),
        a.finite(),
        b.finite(),
        reached(a.value() - b.value(), 1),
    ensures
        nearest(a.sub(c, b), a.value() - b.value(), 1),
        a.sub(c, b).finite(),
{
    reveal(rounds);
    lemma_finite(a.sub(c, b), a.value() - b.value(), 1);
}

pub proof fn lemma_mul<K: Fn(Op, Width, u64, u64) -> u64>(c: &Calc<K>, a: F32, b: F32)
    requires
        rounds(c),
        a.finite(),
        b.finite(),
        reached(a.value() * b.value(), one()),
    ensures
        nearest(a.mul(c, b), a.value() * b.value(), one()),
        a.mul(c, b).finite(),
{
    reveal(rounds);
    lemma_finite(a.mul(c, b), a.value() * b.value(), one());
}

pub proof fn lemma_div<K: Fn(Op, Width, u64, u64) -> u64>(c: &Calc<K>, a: F32, b: F32)
    requires
        rounds(c),
        a.finite(),
        b.finite(),
        b.value() > 0,
        reached(a.value() * one(), b.value()),
    ensures
        nearest(a.div(c, b), a.value() * one(), b.value()),
        a.div(c, b).finite(),
{
    reveal(rounds);
    lemma_finite(a.div(c, b), a.value() * one(), b.value());
}

pub proof fn lemma_of_int<K: Fn(Op, Width, u64, u64) -> u64>(c: &Calc<K>, n: i64)
    requires
        rounds(c),
    ensures
        nearest(F32::of_int(c, n), n * one(), 1),
        F32::of_int(c, n).finite(),
{
    reveal(rounds);
    lemma_finite(F32::of_int(c, n), n * one(), 1);
}

pub proof fn lemma_of_count<K: Fn(Op, Width, u64, u64) -> u64>(c: &Calc<K>, n: u64)
    requires
        rounds(c),
    ensures
        nearest(F32::of_count(c, n), n * one(), 1),
        F32::of_count(c, n).finite(),
{
    reveal(rounds);
    lemma_finite(F32::of_count(c, n), n * one(), 1);
}

/// A remainder lies from zero to the divisor.
pub proof fn lemma_remainder<K: Fn(Op, Width, u64, u64) -> u64>(c: &Calc<K>, a: F32, b: F32)
    requires
        rounds(c),
        a.finite(),
        b.finite(),
        b.value() > 0,
    ensures
        nearest(a.rem_euclid(c, b), a.value() % b.value(), 1),
        a.rem_euclid(c, b).finite(),
        0 <= a.rem_euclid(c, b).value() <= b.value(),
{
    reveal(rounds);
    let (r, n) = (a.rem_euclid(c, b), a.value() % b.value());
    lemma_finite(r, n, 1);
    let zero = F32 { bits: 0 };
    assert(single_value(0) == 0);
    assert(0 <= n < b.value()) by (nonlinear_arith)
        requires
            n == a.value() % b.value(),
            b.value() > 0,
    ;
    lemma_at_least(r, n, 1, zero);
    lemma_at_most(r, n, 1, b);
}

/// What the largest single is, and that no single is larger.
pub proof fn lemma_largest(x: F32)
    requires
        x.finite(),
    ensures
        single(0x7f7f_ffff).value() == 0xff_ffff * pow2(253),
        edge() == single(0x7f7f_ffff).value() + pow2(252),
        apart(x.value(), 0) <= single(0x7f7f_ffff).value(),
        pow2(252) > one(),
{
    let top = single(0x7f7f_ffff);
    assert(0x7f7f_ffffint / 0x80_0000 == 254 && 0x7f7f_ffffint % 0x80_0000 == 0x7f_ffff);
    assert(top.value() == 0xff_ffff * pow2(253));
    lemma_pow2_unfold(253);
    lemma_pow2_strictly_increases(149, 252);
    law_single_order_is_numeric(x.abs(), top);
    lemma_abs(x);
}

/// What is no larger than the largest single, or a little larger, rounds to a single.
pub proof fn lemma_in_reach(n: int, d: int)
    requires
        d > 0,
        apart(n, 0) <= single(0x7f7f_ffff).value() * d,
    ensures
        reached(n, d),
{
    let top = single(0x7f7f_ffff);
    lemma_largest(top);
    lemma_pow2_pos(252);
    assert(top.value() * d < edge() * d) by (nonlinear_arith)
        requires
            top.value() < edge(),
            d > 0,
    ;
}

/// A sum, whatever its size.
pub proof fn lemma_sum<K: Fn(Op, Width, u64, u64) -> u64>(c: &Calc<K>, a: F32, b: F32)
    requires
        rounds(c),
        a.finite(),
        b.finite(),
    ensures
        rounded(a.add(c, b), a.value() + b.value(), 1),
{
    reveal(rounds);
}

/// A product, whatever its size.
pub proof fn lemma_product<K: Fn(Op, Width, u64, u64) -> u64>(c: &Calc<K>, a: F32, b: F32)
    requires
        rounds(c),
        a.finite(),
        b.finite(),
    ensures
        rounded(a.mul(c, b), a.value() * b.value(), one()),
{
    reveal(rounds);
}

/// A root is no smaller than what has no larger square, and no larger than what has no
/// smaller one.
pub proof fn lemma_root<K: Fn(Op, Width, u64, u64) -> u64>(c: &Calc<K>, a: F32, y: F32)
    requires
        rounds(c),
        a.finite(),
        a.value() >= 0,
        y.finite(),
        y.value() >= 0,
    ensures
        a.sqrt(c).finite(),
        a.sqrt(c).value() >= 0,
        y.value() * y.value() <= a.value() * one() ==> y.value() <= a.sqrt(c).value(),
        a.value() * one() <= y.value() * y.value() ==> a.sqrt(c).value() <= y.value(),
{
    reveal(rounds);
}

/// Rounding down gives the whole number below.
pub proof fn lemma_floor<K: Fn(Op, Width, u64, u64) -> u64>(c: &Calc<K>, a: F32)
    requires
        rounds(c),
        a.finite(),
        i64::MIN <= a.value() / one() <= i64::MAX,
    ensures
        a.floor(c).to_int(c) == a.value() / one(),
{
    reveal(rounds);
    let (u, k) = (one(), a.value() / one());
    lemma_pow2_pos(149);
    assert((k * u) / u == k && (k * u) % u == 0) by (nonlinear_arith)
        requires
            u > 0,
    ;
}

// ----------------------------------------------------------------- singles

/// Rounding keeps the order.
pub proof fn lemma_order(x: F32, n: int, y: F32, m: int, d: int)
    requires
        nearest(x, n, d),
        nearest(y, m, d),
        d > 0,
        n <= m,
    ensures
        x.value() <= y.value(),
{
    reveal(nearest);
    let (u, v) = (x.value() * d, y.value() * d);
    if x.value() > y.value() {
        assert(u > v) by (nonlinear_arith)
            requires
                u == x.value() * d,
                v == y.value() * d,
                x.value() > y.value(),
                d > 0,
        ;
        assert(apart(u, n) <= apart(v, n));
        assert(apart(v, m) <= apart(u, m));
        assert(n == m);
        assert(false);
    }
}

/// A single that is not above the exact number is not above the rounded one.
pub proof fn lemma_at_least(x: F32, n: int, d: int, y: F32)
    requires
        nearest(x, n, d),
        d > 0,
        y.finite(),
        y.value() * d <= n,
    ensures
        y.value() <= x.value(),
{
    reveal(nearest);
    let (u, v) = (x.value() * d, y.value() * d);
    if x.value() < y.value() {
        assert(u < v) by (nonlinear_arith)
            requires
                u == x.value() * d,
                v == y.value() * d,
                x.value() < y.value(),
                d > 0,
        ;
        assert(apart(u, n) <= apart(v, n));
    }
}

/// A single that is not below the exact number is not below the rounded one.
pub proof fn lemma_at_most(x: F32, n: int, d: int, y: F32)
    requires
        nearest(x, n, d),
        d > 0,
        y.finite(),
        n <= y.value() * d,
    ensures
        x.value() <= y.value(),
{
    reveal(nearest);
    let (u, v) = (x.value() * d, y.value() * d);
    if x.value() > y.value() {
        assert(u > v) by (nonlinear_arith)
            requires
                u == x.value() * d,
                v == y.value() * d,
                x.value() > y.value(),
                d > 0,
        ;
        assert(apart(u, n) <= apart(v, n));
    }
}

/// What can be written exactly is.
pub proof fn lemma_exact(x: F32, n: int, d: int, y: F32)
    requires
        nearest(x, n, d),
        d > 0,
        y.finite(),
        y.value() * d == n,
    ensures
        x.value() == y.value(),
{
    lemma_at_least(x, n, d, y);
    lemma_at_most(x, n, d, y);
}

/// Being nearest does not depend on the denominator.
pub proof fn lemma_widened(x: F32, n: int, d: int)
    requires
        nearest(x, n, 1),
        d > 0,
    ensures
        nearest(x, n * d, d),
{
    reveal(nearest);
    assert forall|y: F32| y.finite() implies {
        let ex = apart(x.value() * d, n * d);
        let ey = apart(#[trigger] y.value() * d, n * d);
        &&& ex <= ey
        &&& ex == ey && x.value() != y.value() ==> x.bits % 2 == 0 && y.bits % 2 == 1
    } by {
        let (v, w) = (x.value(), y.value());
        assert(apart(v * d, n * d) == apart(v, n) * d && apart(w * d, n * d) == apart(w, n) * d) by (nonlinear_arith)
            requires
                d > 0,
        ;
        let (a, b) = (apart(v, n), apart(w, n));
        assert(a <= b);
        assert(a * d <= b * d && (a * d == b * d ==> a == b)) by (nonlinear_arith)
            requires
                a <= b,
                d > 0,
        ;
    }
}

/// The single that denotes `k * 2^(e - 1)` units, for a `k` below 2^24.
pub open spec fn grid(k: int, e: int) -> F32 {
    if k == 0 {
        F32 { bits: 0 }
    } else if k > 0 {
        F32 { bits: scaled_bits(k, e) as u32 }
    } else {
        F32 { bits: (scaled_bits(-k, e) + 0x8000_0000) as u32 }
    }
}

pub proof fn lemma_grid(k: int, e: int)
    requires
        -0x100_0000 < k < 0x100_0000,
        24 <= e < 255,
    ensures
        grid(k, e).finite(),
        grid(k, e).value() == k * pow2((e - 1) as nat),
{
    let x = grid(k, e);
    if k > 0 {
        lemma_scaled_value(k, e);
        assert(x.mag() == scaled_bits(k, e));
    } else if k < 0 {
        lemma_scaled_value(-k, e);
        assert(x.mag() == scaled_bits(-k, e));
        assert(-((-k) * pow2((e - 1) as nat)) == k * pow2((e - 1) as nat)) by (nonlinear_arith);
    } else {
        assert(single_value(0) == 0);
    }
}

/// A rounded number is less than one grid step away from the exact one.
pub proof fn lemma_error(x: F32, n: int, d: int, e: int)
    requires
        nearest(x, n, d),
        d > 0,
        24 <= e < 255,
        apart(n, 0) < 0x80_0000 * (pow2((e - 1) as nat) * d),
    ensures
        apart(x.value() * d, n) < pow2((e - 1) as nat) * d,
{
    reveal(nearest);
    let g = pow2((e - 1) as nat);
    lemma_pow2_pos((e - 1) as nat);
    let s = g * d;
    assert(s > 0) by (nonlinear_arith)
        requires
            s == g * d,
            g > 0,
            d > 0,
    ;
    let k = n / s;
    assert(k * s <= n < k * s + s && -0x80_0001 < k < 0x80_0000) by (nonlinear_arith)
        requires
            k == n / s,
            s > 0,
            -(0x80_0000 * s) < n < 0x80_0000 * s,
    ;
    lemma_grid(k, e);
    let y = grid(k, e);
    assert(y.value() * d == k * s) by (nonlinear_arith)
        requires
            y.value() == k * g,
            s == g * d,
    ;
    assert(apart(x.value() * d, n) <= apart(y.value() * d, n));
}

/// Numbers up to 2^65 are within reach.
pub proof fn lemma_reached(n: int, d: int)
    requires
        d > 0,
        apart(n, 0) <= 0x2_0000_0000_0000_0000 * (one() * d),
    ensures
        reached(n, d),
{
    let top = single(0x7f7f_ffff).value();
    assert(0x7f7f_ffffint / 0x80_0000 == 254 && 0x7f7f_ffffint % 0x80_0000 == 0x7f_ffff);
    assert(top == 0xff_ffff * pow2(253));
    lemma_pow2_adds(104, 149);
    lemma_pow2_adds(64, 40);
    lemma2_to64();
    lemma_pow2_pos(40);
    lemma_pow2_pos(149);
    let (a, u) = (pow2(104) as int, one());
    assert(a >= 0x1_0000_0000_0000_0000) by (nonlinear_arith)
        requires
            a == 0x1_0000_0000_0000_0000 * pow2(40),
            pow2(40) >= 1,
    ;
    assert(0x2_0000_0000_0000_0000 * (u * d) <= top * d) by (nonlinear_arith)
        requires
            top == 0xff_ffff * (a * u),
            a >= 0x1_0000_0000_0000_0000,
            u > 0,
            d > 0,
    ;
    lemma_in_reach(n, d);
}

/// Without its sign, a single denotes the absolute value.
pub proof fn lemma_abs(x: F32)
    requires
        x.finite(),
    ensures
        x.abs().finite(),
        x.abs().value() == apart(x.value(), 0),
{
    law_single_order_is_numeric(F32 { bits: 0 }, x.abs());
    assert(single_value(0) == 0);
    assert(x.abs().mag() == x.mag());
}

/// Whole numbers below 2^24 are written exactly.
pub proof fn lemma_whole<K: Fn(Op, Width, u64, u64) -> u64>(c: &Calc<K>, n: i64)
    requires
        rounds(c),
        -0x100_0000 < n < 0x100_0000,
    ensures
        F32::of_int(c, n).finite(),
        F32::of_int(c, n).value() == n * one(),
{
    lemma_of_int(c, n);
    lemma_grid(n as int, 150);
    lemma_exact(F32::of_int(c, n), n * one(), 1, grid(n as int, 150));
}

/// Whether a single lies within 2^p of zero.
pub open spec fn small(x: F32, p: nat) -> bool {
    x.finite() && apart(x.value(), 0) <= pow2(p + 149)
}

proof fn lemma_top(p: nat, d: int)
    requires
        p <= 104,
        d > 0,
    ensures
        pow2(p + 149) * d < edge() * d,
{
    let top = single(0x7f7f_ffff).value();
    assert(0x7f7f_ffffint / 0x80_0000 == 254 && 0x7f7f_ffffint % 0x80_0000 == 0x7f_ffff);
    assert(top == 0xff_ffff * pow2(253));
    lemma_pow2_pos(253);
    if p < 104 {
        lemma_pow2_strictly_increases(p + 149, 253);
    }
    let a = pow2(p + 149) as int;
    lemma_largest(single(0x7f7f_ffff));
    lemma_pow2_pos(252);
    assert(a * d < edge() * d) by (nonlinear_arith)
        requires
            a < edge(),
            d > 0,
    ;
}

pub proof fn lemma_small_rounded(x: F32, n: int, d: int, p: nat)
    requires
        nearest(x, n, d),
        d > 0,
        p <= 104,
        apart(n, 0) <= pow2(p + 149) * d,
    ensures
        small(x, p),
{
    lemma_finite(x, n, d);
    lemma_grid(1, p as int + 150);
    lemma_grid(-1, p as int + 150);
    let a = pow2(p + 149) as int;
    assert((-1 * a) * d == -(a * d)) by (nonlinear_arith);
    lemma_at_most(x, n, d, grid(1, p as int + 150));
    lemma_at_least(x, n, d, grid(-1, p as int + 150));
}

/// Sums of small numbers are small.
pub proof fn lemma_add_small<K: Fn(Op, Width, u64, u64) -> u64>(c: &Calc<K>, a: F32, b: F32, p: nat)
    requires
        rounds(c),
        small(a, p),
        small(b, p),
        p < 104,
    ensures
        nearest(a.add(c, b), a.value() + b.value(), 1),
        small(a.add(c, b), p + 1),
{
    lemma_pow2_unfold(p + 150);
    lemma_top(p + 1, 1);
    lemma_add(c, a, b);
    lemma_small_rounded(a.add(c, b), a.value() + b.value(), 1, p + 1);
}

/// Differences of small numbers are small.
pub proof fn lemma_sub_small<K: Fn(Op, Width, u64, u64) -> u64>(c: &Calc<K>, a: F32, b: F32, p: nat)
    requires
        rounds(c),
        small(a, p),
        small(b, p),
        p < 104,
    ensures
        nearest(a.sub(c, b), a.value() - b.value(), 1),
        small(a.sub(c, b), p + 1),
{
    lemma_pow2_unfold(p + 150);
    lemma_top(p + 1, 1);
    lemma_sub(c, a, b);
    lemma_small_rounded(a.sub(c, b), a.value() - b.value(), 1, p + 1);
}

/// Products of small numbers are small.
pub proof fn lemma_mul_small<K: Fn(Op, Width, u64, u64) -> u64>(c: &Calc<K>, a: F32, p: nat, b: F32, q: nat)
    requires
        rounds(c),
        small(a, p),
        small(b, q),
        p + q <= 104,
    ensures
        nearest(a.mul(c, b), a.value() * b.value(), one()),
        small(a.mul(c, b), p + q),
{
    let (x, y, u) = (pow2(p + 149) as int, pow2(q + 149) as int, one());
    let z = pow2(p + q + 149) as int;
    lemma_pow2_pos(149);
    lemma_pow2_adds(p, 149);
    lemma_pow2_adds(q, 149);
    lemma_pow2_adds(p + q, 149);
    lemma_pow2_adds(p, q);
    lemma_pow2_pos(p);
    lemma_pow2_pos(q);
    let (v, w) = (a.value(), b.value());
    assert(x * y == z * u) by (nonlinear_arith)
        requires
            x == pow2(p) * u,
            y == pow2(q) * u,
            z == (pow2(p) * pow2(q)) * u,
    ;
    assert(-(x * y) <= v * w <= x * y) by (nonlinear_arith)
        requires
            -x <= v <= x,
            -y <= w <= y,
    ;
    lemma_top(p + q, u);
    lemma_mul(c, a, b);
    lemma_small_rounded(a.mul(c, b), v * w, u, p + q);
}

} // verus!
