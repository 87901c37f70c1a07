//! The numbers that singles and doubles denote, and what rounding does to them.
use crate::calc::{Calc, Op, Width};
use crate::clocks::lemma_within;
use crate::num::{double, double_value, law_double_order_is_numeric, law_single_order_is_numeric, single, single_value, F32, F64};
use crate::rounding::{self, apart, nearest, one, rounds};
use crate::rounding_double::{self, rounds_doubles, unit};
use crate::spectra::lemma_near;
use vstd::arithmetic::power2::{lemma2_to64, lemma_pow2_adds, lemma_pow2_pos, lemma_pow2_unfold, pow2};
use vstd::prelude::*;

verus! {

/// The number that a single denotes.
pub open spec fn amount(x: F32) -> real {
    x.value() as real / one() as real
}

/// The number that a double denotes.
pub open spec fn amount_of_double(x: F64) -> real {
    x.value() as real / unit() as real
}

/// How far a number is from zero.
pub open spec fn size(x: real) -> real {
    if x < 0real {
        -x
    } else {
        x
    }
}

/// A number too small to matter: 2^-64.
pub open spec fn speck() -> real {
    1real / 0x1_0000_0000_0000_0000real
}

/// Whether `x` is `r` but for the rounding of one operation on singles: a 2^22nd part of it.
pub open spec fn near(x: real, r: real) -> bool {
    0x40_0000real * size(x - r) <= size(r) + speck()
}

/// Whether `x` is `r` but for the rounding of one operation on doubles: a 2^51st part of it.
pub open spec fn near_double(x: real, r: real) -> bool {
    0x8_0000_0000_0000real * size(x - r) <= size(r) + speck()
}

/// Counting and multiplying commute.
pub proof fn lemma_counted(a: int, b: int)
    ensures
        (a * b) as real == (a as real) * (b as real),
    decreases
        if b < 0 {
            -b
        } else {
            b
        },
{
    if b > 0 {
        lemma_counted(a, b - 1);
        assert(a * b == a * (b - 1) + a) by (nonlinear_arith);
        let (x, y) = (a as real, b as real);
        assert((b - 1) as real == y - 1real);
        assert(x * y == x * (y - 1real) + x) by (nonlinear_arith);
    } else if b < 0 {
        lemma_counted(a, b + 1);
        assert(a * b == a * (b + 1) - a) by (nonlinear_arith);
        let (x, y) = (a as real, b as real);
        assert((b + 1) as real == y + 1real);
        assert(x * y == x * (y + 1real) - x) by (nonlinear_arith);
    } else {
        assert(a * b == 0) by (nonlinear_arith)
            requires
                b == 0,
        ;
        let (x, y) = (a as real, b as real);
        assert(x * y == 0real) by (nonlinear_arith)
            requires
                y == 0real,
        ;
    }
}

/// The same bound in other units.
proof fn lemma_rescaled(x: real, r: real, v: real, n: real, d: real, u: real, k: real, m: real, t: real)
    requires
        v == x * u,
        n == r * (d * u),
        k * size(v * d - n) <= size(n) + m * d,
        d > 0real,
        u > 0real,
        m <= t * u,
    ensures
        k * size(x - r) <= size(r) + t,
{
    let w = d * u;
    assert(w > 0real) by (nonlinear_arith)
        requires
            w == d * u,
            d > 0real,
            u > 0real,
    ;
    assert(v * d - n == (x - r) * w) by (nonlinear_arith)
        requires
            v == x * u,
            n == r * w,
            w == d * u,
    ;
    lemma_size_times(x - r, w);
    lemma_size_times(r, w);
    assert(m * d <= t * w) by (nonlinear_arith)
        requires
            m <= t * u,
            w == d * u,
            d > 0real,
    ;
    let (p, q) = (size(x - r), size(r));
    assert(k * p <= q + t) by (nonlinear_arith)
        requires
            k * (p * w) <= q * w + t * w,
            w > 0real,
    ;
}

pub proof fn lemma_size_times(x: real, w: real)
    requires
        w > 0real,
    ensures
        size(x * w) == size(x) * w,
{
    if x < 0real {
        assert(x * w < 0real && (-x) * w == -(x * w)) by (nonlinear_arith)
            requires
                x < 0real,
                w > 0real,
        ;
    } else {
        assert(x * w >= 0real) by (nonlinear_arith)
            requires
                x >= 0real,
                w > 0real,
        ;
    }
}

/// A quotient undoes a product.
pub proof fn lemma_quotient(n: real, d: real)
    requires
        d != 0real,
    ensures
        (n / d) * d == n,
{
    assert((n / d) * d == n) by (nonlinear_arith)
        requires
            d != 0real,
    ;
}

// ----------------------------------------------------------------- singles

proof fn lemma_units()
    ensures
        one() as real > 0real,
        0x2000_0000_0000real <= speck() * (one() as real),
{
    lemma2_to64();
    lemma_pow2_pos(149);
    lemma_pow2_pos(40);
    lemma_pow2_adds(64, 85);
    lemma_pow2_adds(45, 40);
    lemma_pow2_adds(32, 13);
    assert(pow2(45) == 0x2000_0000_0000);
    assert(pow2(64) == 0x1_0000_0000_0000_0000);
    let (a, b) = (pow2(85) as int, pow2(40) as int);
    assert(a >= 0x2000_0000_0000) by (nonlinear_arith)
        requires
            a == 0x2000_0000_0000 * b,
            b >= 1,
    ;
    let (x, y) = (one() as real, a as real);
    assert(x == 0x1_0000_0000_0000_0000real * y);
    let t = speck();
    lemma_quotient(1real, 0x1_0000_0000_0000_0000real);
    assert(t * x == y) by (nonlinear_arith)
        requires
            t * 0x1_0000_0000_0000_0000real == 1real,
            x == 0x1_0000_0000_0000_0000real * y,
    ;
}

/// A rounded single is near the exact number.
proof fn lemma_rounded_near(x: F32, n: int, d: int, r: real)
    requires
        nearest(x, n, d),
        d > 0,
        r * ((d as real) * (one() as real)) == n as real,
        size(r) <= 0x1000_0000_0000_0000real,
    ensures
        x.finite(),
        near(amount(x), r),
{
    rounding::lemma_finite(x, n, d);
    lemma_units();
    let (v, nn, dd, u) = (x.value() as real, n as real, d as real, one() as real);
    lemma_counted(one(), d);
    lemma_counted(x.value(), d);
    let w = dd * u;
    assert(w > 0real && u * dd == w) by (nonlinear_arith)
        requires
            w == dd * u,
            dd > 0real,
            u > 0real,
    ;
    lemma_size_times(r, w);
    assert(size(nn) <= 0x1000_0000_0000_0000real * w) by (nonlinear_arith)
        requires
            size(nn) == size(r) * w,
            size(r) <= 0x1000_0000_0000_0000real,
            w > 0real,
    ;
    assert(apart(n, 0) as real == size(nn));
    assert(apart(n, 0) <= 0x1000_0000_0000_0000 * (one() * d));
    lemma_pow2_pos(149);
    assert(one() * d > 0) by (nonlinear_arith)
        requires
            one() > 0,
            d > 0,
    ;
    lemma_near(x, n, d);
    assert(apart(x.value() * d, n) as real == size(v * dd - nn));
    lemma_quotient(v, u);
    lemma_rescaled(amount(x), r, v, nn, dd, u, 0x40_0000real, 0x2000_0000_0000real, speck());
}

/// What is within 2^60 can be rounded.
proof fn lemma_reachable(n: int, d: int, r: real)
    requires
        d > 0,
        r * ((d as real) * (one() as real)) == n as real,
        size(r) <= 0x1000_0000_0000_0000real,
    ensures
        rounding::reached(n, d),
{
    lemma_units();
    let (nn, dd, u) = (n as real, d as real, one() as real);
    lemma_counted(one(), d);
    let w = dd * u;
    assert(w > 0real && u * dd == w) by (nonlinear_arith)
        requires
            w == dd * u,
            dd > 0real,
            u > 0real,
    ;
    lemma_size_times(r, w);
    assert(size(nn) <= 0x1000_0000_0000_0000real * w) by (nonlinear_arith)
        requires
            size(nn) == size(r) * w,
            size(r) <= 0x1000_0000_0000_0000real,
            w > 0real,
    ;
    assert(apart(n, 0) as real == size(nn));
    assert(apart(n, 0) <= 0x1000_0000_0000_0000 * (one() * d));
    lemma_pow2_pos(149);
    assert(one() * d > 0) by (nonlinear_arith)
        requires
            one() > 0,
            d > 0,
    ;
    rounding::lemma_reached(n, d);
}

/// The exact sum, in units.
proof fn lemma_sum_units(a: F32, b: F32)
    ensures
        (amount(a) + amount(b)) * ((1int as real) * (one() as real)) == (a.value() + b.value()) as real,
        (amount(a) - amount(b)) * ((1int as real) * (one() as real)) == (a.value() - b.value()) as real,
{
    lemma_units();
    let u = one() as real;
    lemma_quotient(a.value() as real, u);
    lemma_quotient(b.value() as real, u);
    let (x, y) = (amount(a), amount(b));
    assert((x + y) * (1real * u) == x * u + y * u) by (nonlinear_arith);
    assert((x - y) * (1real * u) == x * u - y * u) by (nonlinear_arith);
}

proof fn lemma_product_units(a: F32, b: F32)
    ensures
        (amount(a) * amount(b)) * ((one() as real) * (one() as real)) == (a.value() * b.value()) as real,
{
    lemma_units();
    let u = one() as real;
    lemma_quotient(a.value() as real, u);
    lemma_quotient(b.value() as real, u);
    lemma_counted(a.value(), b.value());
    let (x, y) = (amount(a), amount(b));
    assert((x * y) * (u * u) == (x * u) * (y * u)) by (nonlinear_arith);
}

proof fn lemma_quotient_units(a: F32, b: F32)
    requires
        b.value() > 0,
    ensures
        (amount(a) / amount(b)) * ((b.value() as real) * (one() as real)) == (a.value() * one()) as real,
        amount(b) > 0real,
{
    lemma_units();
    let u = one() as real;
    lemma_quotient(a.value() as real, u);
    lemma_quotient(b.value() as real, u);
    lemma_counted(a.value(), one());
    let (x, y) = (amount(a), amount(b));
    assert(y > 0real) by (nonlinear_arith)
        requires
            y * u > 0real,
            u > 0real,
    ;
    lemma_quotient(x, y);
    let q = x / y;
    assert(q * ((y * u) * u) == (x * u) * u) by (nonlinear_arith)
        requires
            q * y == x,
    ;
}

pub proof fn lemma_plus<K: Fn(Op, Width, u64, u64) -> u64>(c: &Calc<K>, a: F32, b: F32)
    requires
        rounds(c),
        a.finite(),
        b.finite(),
        size(amount(a) + amount(b)) <= 0x1000_0000_0000_0000real,
    ensures
        a.add(c, b).finite(),
        near(amount(a.add(c, b)), amount(a) + amount(b)),
{
    lemma_sum_units(a, b);
    lemma_reachable(a.value() + b.value(), 1, amount(a) + amount(b));
    rounding::lemma_add(c, a, b);
    lemma_rounded_near(a.add(c, b), a.value() + b.value(), 1, amount(a) + amount(b));
}

pub proof fn lemma_less<K: Fn(Op, Width, u64, u64) -> u64>(c: &Calc<K>, a: F32, b: F32)
    requires
        rounds(c),
        a.finite(),
        b.finite(),
        size(amount(a) - amount(b)) <= 0x1000_0000_0000_0000real,
    ensures
        a.sub(c, b).finite(),
        near(amount(a.sub(c, b)), amount(a) - amount(b)),
{
    lemma_sum_units(a, b);
    lemma_reachable(a.value() - b.value(), 1, amount(a) - amount(b));
    rounding::lemma_sub(c, a, b);
    lemma_rounded_near(a.sub(c, b), a.value() - b.value(), 1, amount(a) - amount(b));
}

pub proof fn lemma_times<K: Fn(Op, Width, u64, u64) -> u64>(c: &Calc<K>, a: F32, b: F32)
    requires
        rounds(c),
        a.finite(),
        b.finite(),
        size(amount(a) * amount(b)) <= 0x1000_0000_0000_0000real,
    ensures
        a.mul(c, b).finite(),
        near(amount(a.mul(c, b)), amount(a) * amount(b)),
{
    lemma_pow2_pos(149);
    lemma_product_units(a, b);
    lemma_reachable(a.value() * b.value(), one(), amount(a) * amount(b));
    rounding::lemma_mul(c, a, b);
    lemma_rounded_near(a.mul(c, b), a.value() * b.value(), one(), amount(a) * amount(b));
}

pub proof fn lemma_over<K: Fn(Op, Width, u64, u64) -> u64>(c: &Calc<K>, a: F32, b: F32)
    requires
        rounds(c),
        a.finite(),
        b.finite(),
        amount(b) > 0real,
        size(amount(a) / amount(b)) <= 0x1000_0000_0000_0000real,
    ensures
        a.div(c, b).finite(),
        near(amount(a.div(c, b)), amount(a) / amount(b)),
{
    lemma_order(F32 { bits: 0 }, b);
    lemma_quotient_units(a, b);
    lemma_reachable(a.value() * one(), b.value(), amount(a) / amount(b));
    rounding::lemma_div(c, a, b);
    lemma_rounded_near(a.div(c, b), a.value() * one(), b.value(), amount(a) / amount(b));
}

/// Singles are ordered as the numbers they denote.
pub proof fn lemma_order(a: F32, b: F32)
    ensures
        amount(a) < amount(b) <==> a.value() < b.value(),
        amount(a) <= amount(b) <==> a.value() <= b.value(),
        amount(a) == amount(b) <==> a.value() == b.value(),
        amount(F32 { bits: 0 }) == 0real,
        single_value(0) == 0,
{
    lemma_units();
    assert(single_value(0) == 0);
    let u = one() as real;
    lemma_quotient(a.value() as real, u);
    lemma_quotient(b.value() as real, u);
    let (x, y) = (amount(a), amount(b));
    let (v, w) = (a.value() as real, b.value() as real);
    assert((x < y <==> v < w) && (x == y <==> v == w)) by (nonlinear_arith)
        requires
            x * u == v,
            y * u == w,
            u > 0real,
    ;
    let z = amount(F32 { bits: 0 });
    lemma_quotient(0real, u);
    assert(z == 0real) by (nonlinear_arith)
        requires
            z * u == 0real,
            u > 0real,
    ;
}

/// Comparisons compare the numbers.
pub proof fn lemma_compared(a: F32, b: F32)
    requires
        a.finite(),
        b.finite(),
    ensures
        a.below(b) <==> amount(a) < amount(b),
        a.at_most(b) <==> amount(a) <= amount(b),
{
    lemma_order(a, b);
    law_single_order_is_numeric(a, b);
}

/// What can be written exactly is.
pub proof fn lemma_exactly<K: Fn(Op, Width, u64, u64) -> u64>(c: &Calc<K>, a: F32, b: F32, y: F32)
    requires
        rounds(c),
        a.finite(),
        b.finite(),
        y.finite(),
    ensures
        amount(a) + amount(b) == amount(y) ==> a.add(c, b).finite() && amount(a.add(c, b)) == amount(y),
        amount(a) - amount(b) == amount(y) ==> a.sub(c, b).finite() && amount(a.sub(c, b)) == amount(y),
        amount(a) * amount(b) == amount(y) ==> a.mul(c, b).finite() && amount(a.mul(c, b)) == amount(y),
        amount(b) > 0real && amount(a) == amount(y) * amount(b) ==> a.div(c, b).finite() && amount(a.div(c, b)) == amount(y),
{
    lemma_units();
    lemma_pow2_pos(149);
    lemma_sum_units(a, b);
    lemma_product_units(a, b);
    lemma_product_units(y, b);
    let u = one() as real;
    lemma_quotient(y.value() as real, u);
    lemma_quotient(a.value() as real, u);
    rounding::lemma_largest(y);
    let (v, n) = (y.value(), one());
    if amount(a) + amount(b) == amount(y) {
        assert(a.value() + b.value() == v);
        rounding::lemma_in_reach(v, 1);
        rounding::lemma_add(c, a, b);
        rounding::lemma_exact(a.add(c, b), v, 1, y);
    }
    if amount(a) - amount(b) == amount(y) {
        assert(a.value() - b.value() == v);
        rounding::lemma_in_reach(v, 1);
        rounding::lemma_sub(c, a, b);
        rounding::lemma_exact(a.sub(c, b), v, 1, y);
    }
    let top = single(0x7f7f_ffff).value();
    if amount(a) * amount(b) == amount(y) {
        lemma_counted(v, n);
        let z = amount(y);
        assert(z * (u * u) == (z * u) * u) by (nonlinear_arith);
        assert(a.value() * b.value() == v * n);
        assert(apart(v * n, 0) <= top * n) by (nonlinear_arith)
            requires
                apart(v, 0) <= top,
                n > 0,
        ;
        rounding::lemma_in_reach(v * n, n);
        rounding::lemma_mul(c, a, b);
        rounding::lemma_exact(a.mul(c, b), v * n, n, y);
    }
    if amount(b) > 0real && amount(a) == amount(y) * amount(b) {
        lemma_order(F32 { bits: 0 }, b);
        let w = b.value();
        let x = amount(a);
        assert(x * (u * u) == (x * u) * u) by (nonlinear_arith);
        lemma_counted(a.value(), n);
        assert(a.value() * n == v * w);
        assert(apart(v * w, 0) <= top * w) by (nonlinear_arith)
            requires
                apart(v, 0) <= top,
                w > 0,
        ;
        rounding::lemma_in_reach(v * w, w);
        rounding::lemma_div(c, a, b);
        rounding::lemma_exact(a.div(c, b), v * w, w, y);
    }
}

/// The number that a pattern denotes: `m` halved 150 - `e` times.
pub proof fn lemma_constant(bits: u32, m: int, e: int)
    requires
        bits == e * 0x80_0000 + m - 0x80_0000,
        1 <= e <= 150,
        0x80_0000 <= m < 0x100_0000,
    ensures
        single(bits).finite(),
        amount(single(bits)) * (pow2((150 - e) as nat) as real) == m as real,
{
    let x = single(bits);
    assert(bits as int / 0x80_0000 == e && bits as int % 0x80_0000 == m - 0x80_0000);
    assert(x.value() == m * pow2((e - 1) as nat));
    lemma_pow2_adds((e - 1) as nat, (150 - e) as nat);
    let (p, q) = (pow2((e - 1) as nat) as int, pow2((150 - e) as nat) as int);
    lemma_pow2_pos((e - 1) as nat);
    lemma_pow2_pos((150 - e) as nat);
    lemma_counted(m, p);
    lemma_counted(p, q);
    lemma_units();
    lemma_quotient(x.value() as real, one() as real);
    let (a, pp, qq, mm) = (amount(x), p as real, q as real, m as real);
    assert(a * qq == mm) by (nonlinear_arith)
        requires
            a * (pp * qq) == mm * pp,
            pp > 0real,
    ;
}

/// The numbers that stand in formulas most often.
pub proof fn lemma_constants()
    ensures
        single(0).finite() && amount(single(0)) == 0real,
        single(0x3f80_0000).finite() && amount(single(0x3f80_0000)) == 1real,
        single(0x4000_0000).finite() && amount(single(0x4000_0000)) == 2real,
        single(0x3f00_0000).finite() && amount(single(0x3f00_0000)) == 1real / 2real,
        single(0xbf80_0000).finite() && amount(single(0xbf80_0000)) == -1real,
        single(0xc000_0000).finite() && amount(single(0xc000_0000)) == -2real,
{
    lemma2_to64();
    lemma_order(single(0), single(0));
    lemma_constant(0x3f80_0000, 0x80_0000, 127);
    lemma_constant(0x4000_0000, 0x80_0000, 128);
    lemma_constant(0x3f00_0000, 0x80_0000, 126);
    assert(pow2(23) as real == 0x80_0000real);
    assert(pow2(22) as real == 0x40_0000real);
    assert(pow2(24) as real == 0x100_0000real);
    assert(amount(single(0x3f80_0000)) * 0x80_0000real == 0x80_0000real);
    assert(amount(single(0x4000_0000)) * 0x40_0000real == 0x80_0000real);
    assert(amount(single(0x3f00_0000)) * 0x100_0000real == 0x80_0000real);
    assert(single(0x3f80_0000).minus() == single(0xbf80_0000));
    assert(single(0x4000_0000).minus() == single(0xc000_0000));
    lemma_minus(single(0x3f80_0000));
    lemma_minus(single(0x4000_0000));
}

/// A change of sign changes the sign.
pub proof fn lemma_minus(x: F32)
    requires
        x.finite(),
    ensures
        x.minus().finite(),
        amount(x.minus()) == -amount(x),
{
    lemma_units();
    assert(single_value(0) == 0);
    assert(x.minus().mag() == x.mag());
    assert(x.minus().value() == -x.value());
    let u = one() as real;
    lemma_quotient(x.value() as real, u);
    lemma_quotient(x.minus().value() as real, u);
    let (a, b) = (amount(x), amount(x.minus()));
    assert(b == -a) by (nonlinear_arith)
        requires
            a * u == -(b * u),
            u > 0real,
    ;
}

// ----------------------------------------------------------------- doubles

proof fn lemma_units_double()
    ensures
        unit() as real > 0real,
        0x80_0000_0000_0000_0000_0000_0000real <= speck() * (unit() as real),
{
    lemma2_to64();
    lemma_pow2_pos(1074);
    lemma_pow2_pos(907);
    lemma_pow2_adds(64, 1010);
    lemma_pow2_adds(103, 907);
    lemma_pow2_adds(64, 39);
    lemma_pow2_adds(32, 7);
    assert(pow2(103) == 0x80_0000_0000_0000_0000_0000_0000);
    assert(pow2(64) == 0x1_0000_0000_0000_0000);
    let (a, b) = (pow2(1010) as int, pow2(907) as int);
    assert(a >= 0x80_0000_0000_0000_0000_0000_0000) by (nonlinear_arith)
        requires
            a == 0x80_0000_0000_0000_0000_0000_0000 * b,
            b >= 1,
    ;
    let (x, y) = (unit() as real, a as real);
    assert(x == 0x1_0000_0000_0000_0000real * y);
    let t = speck();
    lemma_quotient(1real, 0x1_0000_0000_0000_0000real);
    assert(t * x == y) by (nonlinear_arith)
        requires
            t * 0x1_0000_0000_0000_0000real == 1real,
            x == 0x1_0000_0000_0000_0000real * y,
    ;
}

/// Rounding changes a number by a 2^51st part of it and a tiny step at most.
proof fn lemma_closer_double(x: F64, n: int, d: int, e: int)
    requires
        rounding_double::nearest(x, n, d),
        d > 0,
        53 <= e < 2047,
        apart(n, 0) < 0x10_0000_0000_0000 * (pow2((e - 1) as nat) * d),
    ensures
        0x8_0000_0000_0000 * apart(x.value() * d, n) <= apart(n, 0) + 0x80_0000_0000_0000_0000_0000_0000 * d,
    decreases e,
{
    let h = pow2((e - 1) as nat) * d;
    rounding_double::lemma_error(x, n, d, e);
    if 0x8_0000_0000_0000 * h <= apart(n, 0) {
    } else if e == 53 {
        lemma2_to64();
        lemma_pow2_adds(32, 20);
        assert(h == 0x10_0000_0000_0000 * d);
    } else {
        let g = pow2((e - 2) as nat) * d;
        lemma_pow2_unfold((e - 1) as nat);
        assert(h == 2 * g) by (nonlinear_arith)
            requires
                h == pow2((e - 1) as nat) * d,
                g == pow2((e - 2) as nat) * d,
                pow2((e - 1) as nat) == 2 * pow2((e - 2) as nat),
        ;
        lemma_closer_double(x, n, d, e - 1);
    }
}

/// The same where the number is at most 2^60.
proof fn lemma_close_double(x: F64, n: int, d: int)
    requires
        rounding_double::nearest(x, n, d),
        d > 0,
        apart(n, 0) <= 0x1000_0000_0000_0000 * (unit() * d),
    ensures
        0x8_0000_0000_0000 * apart(x.value() * d, n) <= apart(n, 0) + 0x80_0000_0000_0000_0000_0000_0000 * d,
{
    lemma_pow2_pos(1074);
    lemma_pow2_adds(9, 1074);
    lemma2_to64();
    let (u, t) = (unit(), pow2(1083) as int);
    assert(apart(n, 0) < 0x10_0000_0000_0000 * (t * d)) by (nonlinear_arith)
        requires
            apart(n, 0) <= 0x1000_0000_0000_0000 * (u * d),
            t == 0x200 * u,
            u > 0,
            d > 0,
    {
        assert(t * d == 0x200 * (u * d));
        assert(u * d > 0);
    }
    lemma_closer_double(x, n, d, 1084);
}

/// A rounded double is near the exact number.
proof fn lemma_rounded_near_double(x: F64, n: int, d: int, r: real)
    requires
        rounding_double::nearest(x, n, d),
        d > 0,
        r * ((d as real) * (unit() as real)) == n as real,
        size(r) <= 0x1000_0000_0000_0000real,
    ensures
        x.finite(),
        near_double(amount_of_double(x), r),
{
    rounding_double::lemma_finite(x, n, d);
    lemma_units_double();
    let (v, nn, dd, u) = (x.value() as real, n as real, d as real, unit() as real);
    lemma_counted(unit(), d);
    lemma_counted(x.value(), d);
    let w = dd * u;
    assert(w > 0real && u * dd == w) by (nonlinear_arith)
        requires
            w == dd * u,
            dd > 0real,
            u > 0real,
    ;
    lemma_size_times(r, w);
    assert(size(nn) <= 0x1000_0000_0000_0000real * w) by (nonlinear_arith)
        requires
            size(nn) == size(r) * w,
            size(r) <= 0x1000_0000_0000_0000real,
            w > 0real,
    ;
    assert(apart(n, 0) as real == size(nn));
    assert(apart(n, 0) <= 0x1000_0000_0000_0000 * (unit() * d));
    lemma_pow2_pos(1074);
    assert(unit() * d > 0) by (nonlinear_arith)
        requires
            unit() > 0,
            d > 0,
    ;
    lemma_close_double(x, n, d);
    assert(apart(x.value() * d, n) as real == size(v * dd - nn));
    lemma_quotient(v, u);
    lemma_rescaled(amount_of_double(x), r, v, nn, dd, u, 0x8_0000_0000_0000real, 0x80_0000_0000_0000_0000_0000_0000real, speck());
}

/// What is within 2^60 can be rounded.
proof fn lemma_reachable_double(n: int, d: int, r: real)
    requires
        d > 0,
        r * ((d as real) * (unit() as real)) == n as real,
        size(r) <= 0x1000_0000_0000_0000real,
    ensures
        rounding_double::reached(n, d),
{
    lemma_units_double();
    let (nn, dd, u) = (n as real, d as real, unit() as real);
    lemma_counted(unit(), d);
    let w = dd * u;
    assert(w > 0real && u * dd == w) by (nonlinear_arith)
        requires
            w == dd * u,
            dd > 0real,
            u > 0real,
    ;
    lemma_size_times(r, w);
    assert(size(nn) <= 0x1000_0000_0000_0000real * w) by (nonlinear_arith)
        requires
            size(nn) == size(r) * w,
            size(r) <= 0x1000_0000_0000_0000real,
            w > 0real,
    ;
    assert(apart(n, 0) as real == size(nn));
    assert(apart(n, 0) <= 0x1000_0000_0000_0000 * (unit() * d));
    lemma_pow2_pos(1074);
    assert(unit() * d > 0) by (nonlinear_arith)
        requires
            unit() > 0,
            d > 0,
    ;
    lemma_within(n, d);
}

/// The exact sum, in units.
proof fn lemma_sum_units_double(a: F64, b: F64)
    ensures
        (amount_of_double(a) + amount_of_double(b)) * ((1int as real) * (unit() as real)) == (a.value() + b.value()) as real,
        (amount_of_double(a) - amount_of_double(b)) * ((1int as real) * (unit() as real)) == (a.value() - b.value()) as real,
{
    lemma_units_double();
    let u = unit() as real;
    lemma_quotient(a.value() as real, u);
    lemma_quotient(b.value() as real, u);
    let (x, y) = (amount_of_double(a), amount_of_double(b));
    assert((x + y) * (1real * u) == x * u + y * u) by (nonlinear_arith);
    assert((x - y) * (1real * u) == x * u - y * u) by (nonlinear_arith);
}

proof fn lemma_product_units_double(a: F64, b: F64)
    ensures
        (amount_of_double(a) * amount_of_double(b)) * ((unit() as real) * (unit() as real)) == (a.value() * b.value()) as real,
{
    lemma_units_double();
    let u = unit() as real;
    lemma_quotient(a.value() as real, u);
    lemma_quotient(b.value() as real, u);
    lemma_counted(a.value(), b.value());
    let (x, y) = (amount_of_double(a), amount_of_double(b));
    assert((x * y) * (u * u) == (x * u) * (y * u)) by (nonlinear_arith);
}

proof fn lemma_quotient_units_double(a: F64, b: F64)
    requires
        b.value() > 0,
    ensures
        (amount_of_double(a) / amount_of_double(b)) * ((b.value() as real) * (unit() as real)) == (a.value() * unit()) as real,
        amount_of_double(b) > 0real,
{
    lemma_units_double();
    let u = unit() as real;
    lemma_quotient(a.value() as real, u);
    lemma_quotient(b.value() as real, u);
    lemma_counted(a.value(), unit());
    let (x, y) = (amount_of_double(a), amount_of_double(b));
    assert(y > 0real) by (nonlinear_arith)
        requires
            y * u > 0real,
            u > 0real,
    ;
    lemma_quotient(x, y);
    let q = x / y;
    assert(q * ((y * u) * u) == (x * u) * u) by (nonlinear_arith)
        requires
            q * y == x,
    ;
}

pub proof fn lemma_plus_double<K: Fn(Op, Width, u64, u64) -> u64>(c: &Calc<K>, a: F64, b: F64)
    requires
        rounds_doubles(c),
        a.finite(),
        b.finite(),
        size(amount_of_double(a) + amount_of_double(b)) <= 0x1000_0000_0000_0000real,
    ensures
        a.add(c, b).finite(),
        near_double(amount_of_double(a.add(c, b)), amount_of_double(a) + amount_of_double(b)),
{
    lemma_sum_units_double(a, b);
    lemma_reachable_double(a.value() + b.value(), 1, amount_of_double(a) + amount_of_double(b));
    rounding_double::lemma_add(c, a, b);
    lemma_rounded_near_double(a.add(c, b), a.value() + b.value(), 1, amount_of_double(a) + amount_of_double(b));
}

pub proof fn lemma_less_double<K: Fn(Op, Width, u64, u64) -> u64>(c: &Calc<K>, a: F64, b: F64)
    requires
        rounds_doubles(c),
        a.finite(),
        b.finite(),
        size(amount_of_double(a) - amount_of_double(b)) <= 0x1000_0000_0000_0000real,
    ensures
        a.sub(c, b).finite(),
        near_double(amount_of_double(a.sub(c, b)), amount_of_double(a) - amount_of_double(b)),
{
    lemma_sum_units_double(a, b);
    lemma_reachable_double(a.value() - b.value(), 1, amount_of_double(a) - amount_of_double(b));
    rounding_double::lemma_sub(c, a, b);
    lemma_rounded_near_double(a.sub(c, b), a.value() - b.value(), 1, amount_of_double(a) - amount_of_double(b));
}

pub proof fn lemma_times_double<K: Fn(Op, Width, u64, u64) -> u64>(c: &Calc<K>, a: F64, b: F64)
    requires
        rounds_doubles(c),
        a.finite(),
        b.finite(),
        size(amount_of_double(a) * amount_of_double(b)) <= 0x1000_0000_0000_0000real,
    ensures
        a.mul(c, b).finite(),
        near_double(amount_of_double(a.mul(c, b)), amount_of_double(a) * amount_of_double(b)),
{
    lemma_pow2_pos(1074);
    lemma_product_units_double(a, b);
    lemma_reachable_double(a.value() * b.value(), unit(), amount_of_double(a) * amount_of_double(b));
    rounding_double::lemma_mul(c, a, b);
    lemma_rounded_near_double(a.mul(c, b), a.value() * b.value(), unit(), amount_of_double(a) * amount_of_double(b));
}

pub proof fn lemma_over_double<K: Fn(Op, Width, u64, u64) -> u64>(c: &Calc<K>, a: F64, b: F64)
    requires
        rounds_doubles(c),
        a.finite(),
        b.finite(),
        amount_of_double(b) > 0real,
        size(amount_of_double(a) / amount_of_double(b)) <= 0x1000_0000_0000_0000real,
    ensures
        a.div(c, b).finite(),
        near_double(amount_of_double(a.div(c, b)), amount_of_double(a) / amount_of_double(b)),
{
    lemma_order_double(F64 { bits: 0 }, b);
    lemma_quotient_units_double(a, b);
    lemma_reachable_double(a.value() * unit(), b.value(), amount_of_double(a) / amount_of_double(b));
    rounding_double::lemma_div(c, a, b);
    lemma_rounded_near_double(a.div(c, b), a.value() * unit(), b.value(), amount_of_double(a) / amount_of_double(b));
}

/// Doubles are ordered as the numbers they denote.
pub proof fn lemma_order_double(a: F64, b: F64)
    ensures
        amount_of_double(a) < amount_of_double(b) <==> a.value() < b.value(),
        amount_of_double(a) <= amount_of_double(b) <==> a.value() <= b.value(),
        amount_of_double(a) == amount_of_double(b) <==> a.value() == b.value(),
        amount_of_double(F64 { bits: 0 }) == 0real,
        double_value(0) == 0,
{
    lemma_units_double();
    assert(double_value(0) == 0);
    let u = unit() as real;
    lemma_quotient(a.value() as real, u);
    lemma_quotient(b.value() as real, u);
    let (x, y) = (amount_of_double(a), amount_of_double(b));
    let (v, w) = (a.value() as real, b.value() as real);
    assert((x < y <==> v < w) && (x == y <==> v == w)) by (nonlinear_arith)
        requires
            x * u == v,
            y * u == w,
            u > 0real,
    ;
    let z = amount_of_double(F64 { bits: 0 });
    lemma_quotient(0real, u);
    assert(z == 0real) by (nonlinear_arith)
        requires
            z * u == 0real,
            u > 0real,
    ;
}

/// Comparisons compare the numbers.
pub proof fn lemma_compared_double(a: F64, b: F64)
    requires
        a.finite(),
        b.finite(),
    ensures
        a.below(b) <==> amount_of_double(a) < amount_of_double(b),
        a.at_most(b) <==> amount_of_double(a) <= amount_of_double(b),
{
    lemma_order_double(a, b);
    law_double_order_is_numeric(a, b);
}

/// What can be written exactly is.
pub proof fn lemma_exactly_double<K: Fn(Op, Width, u64, u64) -> u64>(c: &Calc<K>, a: F64, b: F64, y: F64)
    requires
        rounds_doubles(c),
        a.finite(),
        b.finite(),
        y.finite(),
    ensures
        amount_of_double(a) + amount_of_double(b) == amount_of_double(y) ==> a.add(c, b).finite() && amount_of_double(a.add(c, b)) == amount_of_double(y),
        amount_of_double(a) - amount_of_double(b) == amount_of_double(y) ==> a.sub(c, b).finite() && amount_of_double(a.sub(c, b)) == amount_of_double(y),
        amount_of_double(a) * amount_of_double(b) == amount_of_double(y) ==> a.mul(c, b).finite() && amount_of_double(a.mul(c, b)) == amount_of_double(y),
        amount_of_double(b) > 0real && amount_of_double(a) == amount_of_double(y) * amount_of_double(b) ==> a.div(c, b).finite() && amount_of_double(a.div(c, b)) == amount_of_double(y),
{
    lemma_units_double();
    lemma_pow2_pos(1074);
    lemma_sum_units_double(a, b);
    lemma_product_units_double(a, b);
    lemma_product_units_double(y, b);
    let u = unit() as real;
    lemma_quotient(y.value() as real, u);
    lemma_quotient(a.value() as real, u);
    rounding_double::lemma_largest(y);
    let (v, n) = (y.value(), unit());
    if amount_of_double(a) + amount_of_double(b) == amount_of_double(y) {
        assert(a.value() + b.value() == v);
        rounding_double::lemma_in_reach(v, 1);
        rounding_double::lemma_add(c, a, b);
        rounding_double::lemma_exact(a.add(c, b), v, 1, y);
    }
    if amount_of_double(a) - amount_of_double(b) == amount_of_double(y) {
        assert(a.value() - b.value() == v);
        rounding_double::lemma_in_reach(v, 1);
        rounding_double::lemma_sub(c, a, b);
        rounding_double::lemma_exact(a.sub(c, b), v, 1, y);
    }
    let top = double(0x7fef_ffff_ffff_ffff).value();
    if amount_of_double(a) * amount_of_double(b) == amount_of_double(y) {
        lemma_counted(v, n);
        let z = amount_of_double(y);
        assert(z * (u * u) == (z * u) * u) by (nonlinear_arith);
        assert(a.value() * b.value() == v * n);
        assert(apart(v * n, 0) <= top * n) by (nonlinear_arith)
            requires
                apart(v, 0) <= top,
                n > 0,
        ;
        rounding_double::lemma_in_reach(v * n, n);
        rounding_double::lemma_mul(c, a, b);
        rounding_double::lemma_exact(a.mul(c, b), v * n, n, y);
    }
    if amount_of_double(b) > 0real && amount_of_double(a) == amount_of_double(y) * amount_of_double(b) {
        lemma_order_double(F64 { bits: 0 }, b);
        let w = b.value();
        let x = amount_of_double(a);
        assert(x * (u * u) == (x * u) * u) by (nonlinear_arith);
        lemma_counted(a.value(), n);
        assert(a.value() * n == v * w);
        assert(apart(v * w, 0) <= top * w) by (nonlinear_arith)
            requires
                apart(v, 0) <= top,
                w > 0,
        ;
        rounding_double::lemma_in_reach(v * w, w);
        rounding_double::lemma_div(c, a, b);
        rounding_double::lemma_exact(a.div(c, b), v * w, w, y);
    }
}

/// The same where the exact number is known to be within `m` of zero.
pub proof fn lemma_plus_within<K: Fn(Op, Width, u64, u64) -> u64>(c: &Calc<K>, a: F32, b: F32, m: real)
    requires
        rounds(c),
        a.finite(),
        b.finite(),
        -m <= amount(a) + amount(b) <= m,
        m <= 0x1000_0000_0000_0000real,
    ensures
        a.add(c, b).finite(),
        -(m + speck()) <= 0x40_0000real * (amount(a.add(c, b)) - (amount(a) + amount(b))) <= m + speck(),
{
    lemma_plus(c, a, b);
}

/// The same where the exact number is known to be within `m` of zero.
pub proof fn lemma_less_within<K: Fn(Op, Width, u64, u64) -> u64>(c: &Calc<K>, a: F32, b: F32, m: real)
    requires
        rounds(c),
        a.finite(),
        b.finite(),
        -m <= amount(a) - amount(b) <= m,
        m <= 0x1000_0000_0000_0000real,
    ensures
        a.sub(c, b).finite(),
        -(m + speck()) <= 0x40_0000real * (amount(a.sub(c, b)) - (amount(a) - amount(b))) <= m + speck(),
{
    lemma_less(c, a, b);
}

/// The same where the exact number is known to be within `m` of zero.
pub proof fn lemma_times_within<K: Fn(Op, Width, u64, u64) -> u64>(c: &Calc<K>, a: F32, b: F32, m: real)
    requires
        rounds(c),
        a.finite(),
        b.finite(),
        -m <= amount(a) * amount(b) <= m,
        m <= 0x1000_0000_0000_0000real,
    ensures
        a.mul(c, b).finite(),
        -(m + speck()) <= 0x40_0000real * (amount(a.mul(c, b)) - (amount(a) * amount(b))) <= m + speck(),
{
    lemma_times(c, a, b);
}

/// The same where the exact number is known to be within `m` of zero.
pub proof fn lemma_over_within<K: Fn(Op, Width, u64, u64) -> u64>(c: &Calc<K>, a: F32, b: F32, m: real)
    requires
        rounds(c),
        a.finite(),
        b.finite(),
        amount(b) > 0real,
        -m <= amount(a) / amount(b) <= m,
        m <= 0x1000_0000_0000_0000real,
    ensures
        a.div(c, b).finite(),
        -(m + speck()) <= 0x40_0000real * (amount(a.div(c, b)) - (amount(a) / amount(b))) <= m + speck(),
{
    lemma_over(c, a, b);
}

/// The same where the exact number is known to be within `m` of zero.
pub proof fn lemma_plus_within_double<K: Fn(Op, Width, u64, u64) -> u64>(c: &Calc<K>, a: F64, b: F64, m: real)
    requires
        rounds_doubles(c),
        a.finite(),
        b.finite(),
        -m <= amount_of_double(a) + amount_of_double(b) <= m,
        m <= 0x1000_0000_0000_0000real,
    ensures
        a.add(c, b).finite(),
        -(m + speck()) <= 0x8_0000_0000_0000real * (amount_of_double(a.add(c, b)) - (amount_of_double(a) + amount_of_double(b))) <= m + speck(),
{
    lemma_plus_double(c, a, b);
}

/// The same where the exact number is known to be within `m` of zero.
pub proof fn lemma_less_within_double<K: Fn(Op, Width, u64, u64) -> u64>(c: &Calc<K>, a: F64, b: F64, m: real)
    requires
        rounds_doubles(c),
        a.finite(),
        b.finite(),
        -m <= amount_of_double(a) - amount_of_double(b) <= m,
        m <= 0x1000_0000_0000_0000real,
    ensures
        a.sub(c, b).finite(),
        -(m + speck()) <= 0x8_0000_0000_0000real * (amount_of_double(a.sub(c, b)) - (amount_of_double(a) - amount_of_double(b))) <= m + speck(),
{
    lemma_less_double(c, a, b);
}

/// The same where the exact number is known to be within `m` of zero.
pub proof fn lemma_times_within_double<K: Fn(Op, Width, u64, u64) -> u64>(c: &Calc<K>, a: F64, b: F64, m: real)
    requires
        rounds_doubles(c),
        a.finite(),
        b.finite(),
        -m <= amount_of_double(a) * amount_of_double(b) <= m,
        m <= 0x1000_0000_0000_0000real,
    ensures
        a.mul(c, b).finite(),
        -(m + speck()) <= 0x8_0000_0000_0000real * (amount_of_double(a.mul(c, b)) - (amount_of_double(a) * amount_of_double(b))) <= m + speck(),
{
    lemma_times_double(c, a, b);
}

/// The same where the exact number is known to be within `m` of zero.
pub proof fn lemma_over_within_double<K: Fn(Op, Width, u64, u64) -> u64>(c: &Calc<K>, a: F64, b: F64, m: real)
    requires
        rounds_doubles(c),
        a.finite(),
        b.finite(),
        amount_of_double(b) > 0real,
        -m <= amount_of_double(a) / amount_of_double(b) <= m,
        m <= 0x1000_0000_0000_0000real,
    ensures
        a.div(c, b).finite(),
        -(m + speck()) <= 0x8_0000_0000_0000real * (amount_of_double(a.div(c, b)) - (amount_of_double(a) / amount_of_double(b))) <= m + speck(),
{
    lemma_over_double(c, a, b);
}

// -------------------------------------------------------- bounds and wholes

/// The nearest number from `lo` to `hi`.
pub open spec fn kept_within(x: real, lo: real, hi: real) -> real {
    if x < lo {
        lo
    } else if hi < x {
        hi
    } else {
        x
    }
}

/// Keeping a single within bounds keeps its number within theirs.
pub proof fn lemma_kept(x: F32, lo: F32, hi: F32)
    requires
        x.finite(),
        lo.finite(),
        hi.finite(),
    ensures
        x.clamped(lo, hi).finite(),
        amount(x.clamped(lo, hi)) == kept_within(amount(x), amount(lo), amount(hi)),
{
    lemma_compared(x, lo);
    lemma_compared(hi, x);
}

/// The greater of two singles is the greater number.
pub proof fn lemma_greater(x: F32, y: F32)
    requires
        x.finite(),
        y.finite(),
    ensures
        x.greater(y).finite(),
        amount(x.greater(y)) == if amount(x) < amount(y) {
            amount(y)
        } else {
            amount(x)
        },
        x.lesser(y).finite(),
        amount(x.lesser(y)) == if amount(y) < amount(x) {
            amount(y)
        } else {
            amount(x)
        },
{
    lemma_compared(x, y);
    lemma_compared(y, x);
}

/// The greater of two doubles is the greater number.
pub proof fn lemma_greater_double(x: F64, y: F64)
    requires
        x.finite(),
        y.finite(),
    ensures
        x.greater(y).finite(),
        amount_of_double(x.greater(y)) == if amount_of_double(x) < amount_of_double(y) {
            amount_of_double(y)
        } else {
            amount_of_double(x)
        },
        x.lesser(y).finite(),
        amount_of_double(x.lesser(y)) == if amount_of_double(y) < amount_of_double(x) {
            amount_of_double(y)
        } else {
            amount_of_double(x)
        },
{
    lemma_compared_double(x, y);
    lemma_compared_double(y, x);
}

/// A single that is converted denotes the same number.
pub proof fn lemma_widened<K: Fn(Op, Width, u64, u64) -> u64>(c: &Calc<K>, x: F32)
    requires
        rounds_doubles(c),
        x.finite(),
    ensures
        x.to_f64(c).finite(),
        amount_of_double(x.to_f64(c)) == amount(x),
{
    rounding_double::lemma_converted(c, x);
    lemma_units();
    lemma_units_double();
    lemma_pow2_adds(925, 149);
    lemma_pow2_pos(925);
    let (p, u, w) = (pow2(925) as int, one(), unit());
    lemma_counted(x.value(), p);
    lemma_counted(p, u);
    let y = x.to_f64(c);
    lemma_quotient(x.value() as real, u as real);
    lemma_quotient(y.value() as real, w as real);
    let (a, b, pp, uu, v) = (amount(x), amount_of_double(y), p as real, u as real, x.value() as real);
    assert(a == b) by (nonlinear_arith)
        requires
            a * uu == v,
            b * (pp * uu) == v * pp,
            pp > 0real,
            uu > 0real,
    ;
}

/// Counts below 2^53 are themselves.
pub proof fn lemma_counts<K: Fn(Op, Width, u64, u64) -> u64>(c: &Calc<K>, n: u64)
    requires
        rounds_doubles(c),
        n < 0x20_0000_0000_0000,
    ensures
        F64::of_count(c, n).finite(),
        amount_of_double(F64::of_count(c, n)) == n as real,
{
    rounding_double::lemma_count(c, n);
    lemma_units_double();
    let x = F64::of_count(c, n);
    lemma_counted(n as int, unit());
    lemma_quotient(x.value() as real, unit() as real);
    let (a, u, k) = (amount_of_double(x), unit() as real, n as real);
    assert(a == k) by (nonlinear_arith)
        requires
            a * u == k * u,
            u > 0real,
    ;
}

/// What is left when a number is wrapped: from zero to the length, and whole lengths away
/// from the number but for rounding.
pub proof fn lemma_wrapped<K: Fn(Op, Width, u64, u64) -> u64>(c: &Calc<K>, a: F64, b: F64) -> (k: int)
    requires
        rounds_doubles(c),
        a.finite(),
        b.finite(),
        0real < amount_of_double(b) <= 0x1000_0000_0000_0000real,
    ensures
        a.rem_euclid(c, b).finite(),
        0real <= amount_of_double(a.rem_euclid(c, b)) <= amount_of_double(b),
        0x8_0000_0000_0000real * size(
            amount_of_double(a.rem_euclid(c, b)) + (k as real) * amount_of_double(b) - amount_of_double(a),
        ) <= amount_of_double(b) + speck(),
{
    lemma_order_double(F64 { bits: 0 }, b);
    rounding_double::lemma_remainder(c, a, b);
    lemma_units_double();
    let r = a.rem_euclid(c, b);
    lemma_order_double(r, b);
    lemma_order_double(F64 { bits: 0 }, r);
    let (n, d) = (a.value(), b.value());
    let k = n / d;
    let m = n % d;
    assert(n == k * d + m && 0 <= m < d) by (nonlinear_arith)
        requires
            k == n / d,
            m == n % d,
            d > 0,
    ;
    lemma_counted(k, d);
    let u = unit() as real;
    lemma_quotient(n as real, u);
    lemma_quotient(d as real, u);
    lemma_quotient(m as real, u);
    let (x, y, z, kk) = (amount_of_double(a), amount_of_double(b), m as real / u, k as real);
    assert(x == kk * y + z && 0real <= z <= y) by (nonlinear_arith)
        requires
            x * u == kk * (y * u) + z * u,
            0real <= z * u <= y * u,
            u > 0real,
    ;
    assert(z * (1real * u) == m as real);
    lemma_rounded_near_double(r, m, 1, z);
    k
}

/// The same of singles.
pub proof fn lemma_wrapped_single<K: Fn(Op, Width, u64, u64) -> u64>(c: &Calc<K>, a: F32, b: F32) -> (k: int)
    requires
        rounds(c),
        a.finite(),
        b.finite(),
        0real < amount(b) <= 0x1000_0000_0000_0000real,
    ensures
        a.rem_euclid(c, b).finite(),
        0real <= amount(a.rem_euclid(c, b)) <= amount(b),
        0x40_0000real * size(amount(a.rem_euclid(c, b)) + (k as real) * amount(b) - amount(a)) <= amount(b) + speck(),
{
    lemma_order(F32 { bits: 0 }, b);
    rounding::lemma_remainder(c, a, b);
    lemma_units();
    let r = a.rem_euclid(c, b);
    lemma_order(r, b);
    lemma_order(F32 { bits: 0 }, r);
    let (n, d) = (a.value(), b.value());
    let k = n / d;
    let m = n % d;
    assert(n == k * d + m && 0 <= m < d) by (nonlinear_arith)
        requires
            k == n / d,
            m == n % d,
            d > 0,
    ;
    lemma_counted(k, d);
    let u = one() as real;
    lemma_quotient(n as real, u);
    lemma_quotient(d as real, u);
    lemma_quotient(m as real, u);
    let (x, y, z, kk) = (amount(a), amount(b), m as real / u, k as real);
    assert(x == kk * y + z && 0real <= z <= y) by (nonlinear_arith)
        requires
            x * u == kk * (y * u) + z * u,
            0real <= z * u <= y * u,
            u > 0real,
    ;
    assert(z * (1real * u) == m as real);
    lemma_rounded_near(r, m, 1, z);
    k
}

/// Without its sign, a single denotes the size.
pub proof fn lemma_unsigned(x: F32)
    requires
        x.finite(),
    ensures
        x.abs().finite(),
        amount(x.abs()) == size(amount(x)),
{
    rounding::lemma_abs(x);
    lemma_units();
    let u = one() as real;
    lemma_quotient(x.value() as real, u);
    lemma_quotient(x.abs().value() as real, u);
    let (a, b) = (amount(x), amount(x.abs()));
    if x.value() >= 0 {
        assert(a == b && a >= 0real) by (nonlinear_arith)
            requires
                a * u == b * u,
                a * u >= 0real,
                u > 0real,
        ;
    } else {
        assert(b == -a && a < 0real) by (nonlinear_arith)
            requires
                b * u == -(a * u),
                a * u < 0real,
                u > 0real,
        ;
    }
}

/// Singles that denote the same number other than zero are the same.
pub proof fn lemma_same(x: F32, y: F32)
    requires
        x.finite(),
        y.finite(),
        amount(x) == amount(y),
        amount(x) != 0real,
    ensures
        x == y,
{
    lemma_order(x, y);
    assert(single_value(0) == 0);
    lemma_order(x, F32 { bits: 0 });
    law_single_order_is_numeric(x, y);
    law_single_order_is_numeric(y, x);
    assert(x.key() == y.key());
    assert(x.mag() != 0);
    assert(y.mag() != 0);
    assert(x.mag() == y.mag() && x.neg() == y.neg());
}

/// The number that a double's pattern denotes: `m` halved 1075 - `e` times.
pub proof fn lemma_constant_double(bits: u64, m: int, e: int)
    requires
        bits == e * 0x10_0000_0000_0000 + m - 0x10_0000_0000_0000,
        1 <= e <= 1075,
        0x10_0000_0000_0000 <= m < 0x20_0000_0000_0000,
    ensures
        double(bits).finite(),
        amount_of_double(double(bits)) * (pow2((1075 - e) as nat) as real) == m as real,
{
    let x = double(bits);
    assert(bits as int / 0x10_0000_0000_0000 == e && bits as int % 0x10_0000_0000_0000 == m - 0x10_0000_0000_0000);
    assert(x.value() == m * pow2((e - 1) as nat));
    lemma_pow2_adds((e - 1) as nat, (1075 - e) as nat);
    let (p, q) = (pow2((e - 1) as nat) as int, pow2((1075 - e) as nat) as int);
    lemma_pow2_pos((e - 1) as nat);
    lemma_pow2_pos((1075 - e) as nat);
    lemma_counted(m, p);
    lemma_counted(p, q);
    lemma_units_double();
    lemma_quotient(x.value() as real, unit() as real);
    let (a, pp, qq, mm) = (amount_of_double(x), p as real, q as real, m as real);
    assert(a * qq == mm) by (nonlinear_arith)
        requires
            a * (pp * qq) == mm * pp,
            pp > 0real,
    ;
}

/// A root is no smaller than what has no larger square, and no larger than what has no
/// smaller one.
pub proof fn lemma_root<K: Fn(Op, Width, u64, u64) -> u64>(c: &Calc<K>, a: F32, y: F32)
    requires
        rounds(c),
        a.finite(),
        y.finite(),
        amount(a) >= 0real,
        amount(y) >= 0real,
    ensures
        a.sqrt(c).finite(),
        amount(a.sqrt(c)) >= 0real,
        amount(y) * amount(y) <= amount(a) ==> amount(y) <= amount(a.sqrt(c)),
        amount(a) <= amount(y) * amount(y) ==> amount(a.sqrt(c)) <= amount(y),
{
    let zero = F32 { bits: 0 };
    lemma_order(zero, a);
    lemma_order(zero, y);
    rounding::lemma_root(c, a, y);
    let r = a.sqrt(c);
    lemma_order(zero, r);
    lemma_order(y, r);
    lemma_order(r, y);
    lemma_units();
    lemma_product_units(y, y);
    let u = one() as real;
    lemma_quotient(a.value() as real, u);
    lemma_counted(a.value(), one());
    let (x, q, w) = (amount(a), amount(y) * amount(y), u * u);
    assert(x * w == (x * u) * u) by (nonlinear_arith)
        requires
            w == u * u,
    ;
    assert(w > 0real) by (nonlinear_arith)
        requires
            w == u * u,
            u > 0real,
    ;
    assert((q <= x ==> q * w <= x * w) && (x <= q ==> x * w <= q * w)) by (nonlinear_arith)
        requires
            w > 0real,
    ;
}

/// What is divided keeps its sign.
pub proof fn lemma_over_sign<K: Fn(Op, Width, u64, u64) -> u64>(c: &Calc<K>, a: F32, b: F32)
    requires
        rounds(c),
        a.finite(),
        b.finite(),
        a.value() >= 0,
        b.value() > 0,
        size(amount(a) / amount(b)) <= 0x1000_0000_0000_0000real,
    ensures
        a.div(c, b).value() >= 0,
{
    lemma_units();
    lemma_quotient_units(a, b);
    lemma_reachable(a.value() * one(), b.value(), amount(a) / amount(b));
    rounding::lemma_div(c, a, b);
    let zero = F32 { bits: 0 };
    assert(single_value(0) == 0);
    let n = a.value() * one();
    assert(n >= 0) by (nonlinear_arith)
        requires
            n == a.value() * one(),
            a.value() >= 0,
            one() >= 0,
    ;
    assert(zero.value() * b.value() == 0) by (nonlinear_arith)
        requires
            zero.value() == 0,
    ;
    rounding::lemma_at_least(a.div(c, b), n, b.value(), zero);
}

// ------------------------------------------------------------- approximations

/// Whether a single denotes `r` but for an error of `e` at most.
pub open spec fn about(x: F32, r: real, e: real) -> bool {
    x.finite() && -e <= amount(x) - r <= e
}

/// A product of two numbers that are off by a little.
proof fn lemma_errors(x: real, r: real, ex: real, mr: real, y: real, q: real, ey: real, mq: real)
    requires
        -ex <= x - r <= ex,
        -ey <= y - q <= ey,
        -mr <= r <= mr,
        -mq <= q <= mq,
    ensures
        -(ex * mq + mr * ey + ex * ey) <= x * y - r * q <= ex * mq + mr * ey + ex * ey,
        -(mr * mq) <= r * q <= mr * mq,
{
    let (d, f) = (x - r, y - q);
    assert(x * y - r * q == d * q + r * f + d * f) by (nonlinear_arith)
        requires
            d == x - r,
            f == y - q,
    ;
    lemma_bounded(d, ex, q, mq);
    lemma_bounded(r, mr, f, ey);
    lemma_bounded(d, ex, f, ey);
    lemma_bounded(r, mr, q, mq);
}

/// A product of two bounded numbers is bounded.
pub proof fn lemma_bounded(a: real, m: real, b: real, n: real)
    requires
        -m <= a <= m,
        -n <= b <= n,
    ensures
        -(m * n) <= a * b <= m * n,
{
    assert(-(m * n) <= a * b <= m * n) by (nonlinear_arith)
        requires
            -m <= a <= m,
            -n <= b <= n,
    ;
}

pub proof fn lemma_about_plus<K: Fn(Op, Width, u64, u64) -> u64>(c: &Calc<K>, x: F32, r: real, ex: real, y: F32, q: real, ey: real, m: real, e: real)
    requires
        rounds(c),
        about(x, r, ex),
        about(y, q, ey),
        -m <= r + q <= m,
        m + ex + ey <= 0x1000_0000_0000_0000real,
        (m + ex + ey + 1real) / 0x40_0000real + ex + ey <= e,
    ensures
        about(x.add(c, y), r + q, e),
{
    lemma_plus_within(c, x, y, m + ex + ey);
    assert(speck() <= 1real);
}

pub proof fn lemma_about_less<K: Fn(Op, Width, u64, u64) -> u64>(c: &Calc<K>, x: F32, r: real, ex: real, y: F32, q: real, ey: real, m: real, e: real)
    requires
        rounds(c),
        about(x, r, ex),
        about(y, q, ey),
        -m <= r - q <= m,
        m + ex + ey <= 0x1000_0000_0000_0000real,
        (m + ex + ey + 1real) / 0x40_0000real + ex + ey <= e,
    ensures
        about(x.sub(c, y), r - q, e),
{
    lemma_less_within(c, x, y, m + ex + ey);
    assert(speck() <= 1real);
}

pub proof fn lemma_about_times<K: Fn(Op, Width, u64, u64) -> u64>(c: &Calc<K>, x: F32, r: real, ex: real, mr: real, y: F32, q: real, ey: real, mq: real, e: real)
    requires
        rounds(c),
        about(x, r, ex),
        about(y, q, ey),
        -mr <= r <= mr,
        -mq <= q <= mq,
        mr * mq + (ex * mq + mr * ey + ex * ey) <= 0x1000_0000_0000_0000real,
        (mr * mq + (ex * mq + mr * ey + ex * ey) + 1real) / 0x40_0000real + (ex * mq + mr * ey + ex * ey) <= e,
    ensures
        about(x.mul(c, y), r * q, e),
        -(mr * mq) <= r * q <= mr * mq,
{
    lemma_errors(amount(x), r, ex, mr, amount(y), q, ey, mq);
    lemma_times_within(c, x, y, mr * mq + (ex * mq + mr * ey + ex * ey));
    assert(speck() <= 1real);
}

/// A quotient by a number that is at least `lo`.
pub proof fn lemma_about_over<K: Fn(Op, Width, u64, u64) -> u64>(c: &Calc<K>, x: F32, r: real, ex: real, y: F32, lo: real, m: real, e: real)
    requires
        rounds(c),
        about(x, r, ex),
        y.finite(),
        0real < lo <= amount(y),
        -(m * lo) <= r <= m * lo,
        0real <= ex <= m * lo,
        2real * m <= 0x1000_0000_0000_0000real,
        ((2real * m + 1real) / 0x40_0000real) * lo + ex <= e * lo,
    ensures
        about(x.div(c, y), r / amount(y), e),
        -m <= r / amount(y) <= m,
{
    let (a, b) = (amount(x), amount(y));
    lemma_quotient(a, b);
    lemma_quotient(r, b);
    let (p, q) = (a / b, r / b);
    let d = a - r;
    let f = p - q;
    assert(f * b == d) by (nonlinear_arith)
        requires
            p * b == a,
            q * b == r,
            d == a - r,
            f == p - q,
    ;
    assert(-m <= q <= m) by (nonlinear_arith)
        requires
            q * b == r,
            -(m * lo) <= r <= m * lo,
            0real < lo <= b,
    ;
    assert(-m <= f <= m) by (nonlinear_arith)
        requires
            f * b == d,
            -(m * lo) <= d <= m * lo,
            0real < lo <= b,
    ;
    lemma_over_within(c, x, y, 2real * m);
    assert(speck() <= 1real);
    let g = amount(x.div(c, y)) - p;
    let h = (2real * m + 1real) / 0x40_0000real;
    assert(-h <= g <= h);
    assert(-(e - h) <= f <= e - h) by (nonlinear_arith)
        requires
            f * b == d,
            -ex <= d <= ex,
            h * lo + ex <= e * lo,
            0real < lo <= b,
            ex >= 0real,
    ;
}

/// What is kept within bounds is off by no more than it was.
pub proof fn lemma_about_kept(x: F32, r: real, e: real, lo: F32, hi: F32)
    requires
        about(x, r, e),
        lo.finite(),
        hi.finite(),
        amount(lo) <= amount(hi),
    ensures
        about(x.clamped(lo, hi), kept_within(r, amount(lo), amount(hi)), e),
{
    lemma_kept(x, lo, hi);
}

/// Whether a double denotes `r` but for an error of `e` at most.
pub open spec fn about_double(x: F64, r: real, e: real) -> bool {
    x.finite() && -e <= amount_of_double(x) - r <= e
}

pub proof fn lemma_about_plus_double<K: Fn(Op, Width, u64, u64) -> u64>(c: &Calc<K>, x: F64, r: real, ex: real, y: F64, q: real, ey: real, m: real, e: real)
    requires
        rounds_doubles(c),
        about_double(x, r, ex),
        about_double(y, q, ey),
        -m <= r + q <= m,
        m + ex + ey <= 0x1000_0000_0000_0000real,
        (m + ex + ey + 1real) / 0x8_0000_0000_0000real + ex + ey <= e,
    ensures
        about_double(x.add(c, y), r + q, e),
{
    lemma_plus_within_double(c, x, y, m + ex + ey);
    assert(speck() <= 1real);
}

pub proof fn lemma_about_less_double<K: Fn(Op, Width, u64, u64) -> u64>(c: &Calc<K>, x: F64, r: real, ex: real, y: F64, q: real, ey: real, m: real, e: real)
    requires
        rounds_doubles(c),
        about_double(x, r, ex),
        about_double(y, q, ey),
        -m <= r - q <= m,
        m + ex + ey <= 0x1000_0000_0000_0000real,
        (m + ex + ey + 1real) / 0x8_0000_0000_0000real + ex + ey <= e,
    ensures
        about_double(x.sub(c, y), r - q, e),
{
    lemma_less_within_double(c, x, y, m + ex + ey);
    assert(speck() <= 1real);
}

pub proof fn lemma_about_times_double<K: Fn(Op, Width, u64, u64) -> u64>(c: &Calc<K>, x: F64, r: real, ex: real, mr: real, y: F64, q: real, ey: real, mq: real, e: real)
    requires
        rounds_doubles(c),
        about_double(x, r, ex),
        about_double(y, q, ey),
        -mr <= r <= mr,
        -mq <= q <= mq,
        mr * mq + (ex * mq + mr * ey + ex * ey) <= 0x1000_0000_0000_0000real,
        (mr * mq + (ex * mq + mr * ey + ex * ey) + 1real) / 0x8_0000_0000_0000real + (ex * mq + mr * ey + ex * ey) <= e,
    ensures
        about_double(x.mul(c, y), r * q, e),
        -(mr * mq) <= r * q <= mr * mq,
{
    lemma_errors(amount_of_double(x), r, ex, mr, amount_of_double(y), q, ey, mq);
    lemma_times_within_double(c, x, y, mr * mq + (ex * mq + mr * ey + ex * ey));
    assert(speck() <= 1real);
}

/// A quotient by a number that is at least `lo`.
pub proof fn lemma_about_over_double<K: Fn(Op, Width, u64, u64) -> u64>(c: &Calc<K>, x: F64, r: real, ex: real, y: F64, lo: real, m: real, e: real)
    requires
        rounds_doubles(c),
        about_double(x, r, ex),
        y.finite(),
        0real < lo <= amount_of_double(y),
        -(m * lo) <= r <= m * lo,
        0real <= ex <= m * lo,
        2real * m <= 0x1000_0000_0000_0000real,
        ((2real * m + 1real) / 0x8_0000_0000_0000real) * lo + ex <= e * lo,
    ensures
        about_double(x.div(c, y), r / amount_of_double(y), e),
        -m <= r / amount_of_double(y) <= m,
{
    let (a, b) = (amount_of_double(x), amount_of_double(y));
    lemma_quotient(a, b);
    lemma_quotient(r, b);
    let (p, q) = (a / b, r / b);
    let d = a - r;
    let f = p - q;
    assert(f * b == d) by (nonlinear_arith)
        requires
            p * b == a,
            q * b == r,
            d == a - r,
            f == p - q,
    ;
    assert(-m <= q <= m) by (nonlinear_arith)
        requires
            q * b == r,
            -(m * lo) <= r <= m * lo,
            0real < lo <= b,
    ;
    assert(-m <= f <= m) by (nonlinear_arith)
        requires
            f * b == d,
            -(m * lo) <= d <= m * lo,
            0real < lo <= b,
    ;
    lemma_over_within_double(c, x, y, 2real * m);
    assert(speck() <= 1real);
    let g = amount_of_double(x.div(c, y)) - p;
    let h = (2real * m + 1real) / 0x8_0000_0000_0000real;
    assert(-h <= g <= h);
    assert(-(e - h) <= f <= e - h) by (nonlinear_arith)
        requires
            f * b == d,
            -ex <= d <= ex,
            h * lo + ex <= e * lo,
            0real < lo <= b,
            ex >= 0real,
    ;
}

// ---------------------------------------------------------------- conversions

/// Whether an arithmetic turns whole numbers into doubles exactly, rounds doubles to the
/// nearest single, and takes what is behind the point exactly.
#[verifier::opaque]
pub open spec fn converts<K: Fn(Op, Width, u64, u64) -> u64>(c: &Calc<K>) -> bool {
    &&& forall|n: i64|
        -0x20_0000_0000_0000 < n < 0x20_0000_0000_0000 ==> (#[trigger] F64::of_int(c, n)).finite()
            && amount_of_double(F64::of_int(c, n)) == n as real
    &&& forall|a: F64|
        a.finite() && size(amount_of_double(a)) <= 0x1000_0000_0000_0000real ==> (#[trigger] a.to_f32(c)).finite() && near(
            amount(a.to_f32(c)),
            amount_of_double(a),
        )
    &&& forall|a: F64, y: F32|
        #![trigger a.to_f32(c), amount(y)]
        a.finite() && y.finite() && amount(y) == amount_of_double(a) ==> a.to_f32(c).finite() && amount(a.to_f32(c))
            == amount(y)
    &&& forall|a: F64|
        a.finite() && a.value() >= 0 ==> (#[trigger] a.fract(c)).finite() && a.fract(c).value() == a.value() % unit()
}

pub proof fn lemma_whole_double<K: Fn(Op, Width, u64, u64) -> u64>(c: &Calc<K>, n: i64)
    requires
        converts(c),
        -0x20_0000_0000_0000 < n < 0x20_0000_0000_0000,
    ensures
        F64::of_int(c, n).finite(),
        amount_of_double(F64::of_int(c, n)) == n as real,
{
    reveal(converts);
}

/// Rounding to a single.
pub proof fn lemma_narrowed<K: Fn(Op, Width, u64, u64) -> u64>(c: &Calc<K>, a: F64, m: real)
    requires
        converts(c),
        a.finite(),
        -m <= amount_of_double(a) <= m,
        m <= 0x1000_0000_0000_0000real,
    ensures
        a.to_f32(c).finite(),
        -(m + speck()) <= 0x40_0000real * (amount(a.to_f32(c)) - amount_of_double(a)) <= m + speck(),
{
    reveal(converts);
}

/// What a single can hold stays as it is.
pub proof fn lemma_narrowed_exactly<K: Fn(Op, Width, u64, u64) -> u64>(c: &Calc<K>, a: F64, y: F32)
    requires
        converts(c),
        a.finite(),
        y.finite(),
        amount(y) == amount_of_double(a),
    ensures
        a.to_f32(c).finite(),
        amount(a.to_f32(c)) == amount(y),
{
    reveal(converts);
}

/// What is behind the point: from zero to one, and a whole number away.
pub proof fn lemma_fraction<K: Fn(Op, Width, u64, u64) -> u64>(c: &Calc<K>, a: F64) -> (k: int)
    requires
        converts(c),
        a.finite(),
        amount_of_double(a) >= 0real,
    ensures
        a.fract(c).finite(),
        0real <= amount_of_double(a.fract(c)) < 1real,
        amount_of_double(a) == amount_of_double(a.fract(c)) + k as real,
        k >= 0,
{
    reveal(converts);
    lemma_order_double(F64 { bits: 0 }, a);
    lemma_units_double();
    let f = a.fract(c);
    let (n, u) = (a.value(), unit());
    let (k, m) = (n / u, n % u);
    assert(n == k * u + m && 0 <= m < u && k >= 0) by (nonlinear_arith)
        requires
            k == n / u,
            m == n % u,
            u > 0,
            n >= 0,
    ;
    lemma_counted(k, u);
    let uu = u as real;
    lemma_quotient(n as real, uu);
    lemma_quotient(m as real, uu);
    let (x, y, kk) = (amount_of_double(a), amount_of_double(f), k as real);
    assert(x == y + kk && 0real <= y < 1real) by (nonlinear_arith)
        requires
            x * uu == kk * uu + y * uu,
            0real <= y * uu < uu,
            uu > 0real,
    ;
    k
}

} // verus!
