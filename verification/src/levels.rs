//! How loud sounds get, in numbers: laws of arithmetic that rounds to nearest.
use crate::audio::soft_clipped;
use crate::calc::{Calc, Op, Width};
use crate::num::{law_single_order_is_numeric, single, single_value, F32};
use crate::rounding::{
    apart, lemma_add, lemma_at_least, lemma_at_most, lemma_in_reach, lemma_largest, lemma_mul, nearest, one, rounds,
};
use vstd::arithmetic::power2::{lemma2_to64, lemma_pow2_adds, lemma_pow2_pos, pow2};
use vstd::prelude::*;

verus! {

/// Whether hyperbolic tangents lie from -1 to 1.
pub open spec fn tangents_stay_in_range<K: Fn(Op, Width, u64, u64) -> u64>(c: &Calc<K>) -> bool {
    forall|s: F32|
        !s.nan() ==> single(0xbf80_0000).le(#[trigger] s.tanh(c)) && s.tanh(c).le(single(0x3f80_0000))
}

/// The numbers that soft clipping weighs by add up to a little more than one.
proof fn lemma_weights()
    ensures
        one() > 0,
        pow2(123) > 0,
        one() == 0x400_0000 * pow2(123),
        single_value(0) == 0,
        single(0x3f80_0000).value() == one(),
        single(0xbf80_0000).value() == -one(),
        single(0x3e4c_cccd).value() == 0xcc_cccd * pow2(123),
        single(0x3f4c_cccd).value() == 4 * (0xcc_cccd * pow2(123)),
        single(0x3f80_0001).value() == one() + 8 * pow2(123),
{
    lemma_pow2_pos(123);
    lemma2_to64();
    lemma_pow2_adds(26, 123);
    lemma_pow2_adds(2, 123);
    lemma_pow2_adds(3, 123);
    lemma_pow2_adds(23, 126);
    let h = pow2(123) as int;
    assert(0x3f80_0000int / 0x80_0000 == 127 && 0x3f80_0000int % 0x80_0000 == 0);
    assert(0x3f80_0001int / 0x80_0000 == 127 && 0x3f80_0001int % 0x80_0000 == 1);
    assert(0x3e4c_cccdint / 0x80_0000 == 124 && 0x3e4c_cccdint % 0x80_0000 == 0x4c_cccd);
    assert(0x3f4c_cccdint / 0x80_0000 == 126 && 0x3f4c_cccdint % 0x80_0000 == 0x4c_cccd);
    assert(single(0x3f80_0000).value() == single_value(0x3f80_0000));
    assert(single(0x3f80_0001).value() == single_value(0x3f80_0001));
    assert(single(0x3e4c_cccd).value() == single_value(0x3e4c_cccd));
    assert(single(0x3f4c_cccd).value() == single_value(0x3f4c_cccd));
    assert(single(0xbf80_0000).mag() == 0x3f80_0000);
    assert(0xcc_cccd * (4 * h) == 4 * (0xcc_cccd * h)) by (nonlinear_arith);
    assert(0x80_0001 * (8 * h) == 0x80_0000 * (8 * h) + 8 * h) by (nonlinear_arith);
}

/// What is at most a little more than one rounds to one at most.
proof fn lemma_little_more(x: F32, n: int)
    requires
        nearest(x, n, 1),
        x.finite(),
        apart(n, 0) <= one() + pow2(123),
    ensures
        apart(x.value(), 0) <= one(),
{
    lemma_weights();
    reveal(nearest);
    let (unit, less) = (single(0x3f80_0000), single(0xbf80_0000));
    let (past, below) = (single(0x3f80_0001), single(0xbf80_0001));
    assert(below.value() == -past.value());
    law_single_order_is_numeric(unit, x);
    law_single_order_is_numeric(past, x);
    law_single_order_is_numeric(x, less);
    law_single_order_is_numeric(x, below);
    assert(apart(x.value() * 1, n) <= apart(unit.value() * 1, n));
    assert(apart(x.value() * 1, n) <= apart(less.value() * 1, n));
}

/// A part of a number from -1 to 1 by a weight.
proof fn lemma_weighed<K: Fn(Op, Width, u64, u64) -> u64>(c: &Calc<K>, x: F32, w: F32)
    requires
        rounds(c),
        x.finite(),
        w.finite(),
        apart(x.value(), 0) <= one(),
        0 < w.value() <= one(),
    ensures
        x.mul(c, w).finite(),
        apart(x.mul(c, w).value(), 0) <= w.value(),
{
    let (u, v, k) = (one(), x.value(), w.value());
    lemma_largest(w);
    let top = single(0x7f7f_ffff).value();
    assert(-(k * u) <= v * k <= k * u && k * u <= top * u && (-k) * u == -(k * u)) by (nonlinear_arith)
        requires
            -u <= v <= u,
            0 < k <= top,
            u > 0,
    ;
    lemma_in_reach(v * k, u);
    lemma_mul(c, x, w);
    let m = x.mul(c, w);
    let minus = F32 { bits: (w.bits + 0x8000_0000) as u32 };
    assert(single_value(0) == 0);
    law_single_order_is_numeric(single(0), w);
    assert(minus.mag() == w.mag() && minus.neg());
    assert(minus.value() == -k);
    lemma_at_most(m, v * k, u, w);
    lemma_at_least(m, v * k, u, minus);
}

/// Soft clipping keeps every sample from -1 to 1.
pub proof fn law_soft_clipping_stays_in_range<K: Fn(Op, Width, u64, u64) -> u64>(c: &Calc<K>, s: F32)
    requires
        rounds(c),
        tangents_stay_in_range(c),
        !s.nan(),
    ensures
        single(0xbf80_0000).le(soft_clipped(c, s)),
        soft_clipped(c, s).le(single(0x3f80_0000)),
{
    lemma_weights();
    let (unit, less) = (single(0x3f80_0000), single(0xbf80_0000));
    let t = s.tanh(c);
    if !unit.lt(s.abs()) {
        law_single_order_is_numeric(s.abs(), unit);
        crate::rounding::lemma_abs(s);
        law_single_order_is_numeric(t, unit);
        law_single_order_is_numeric(less, t);
        let (w, v) = (single(0x3e4c_cccd), single(0x3f4c_cccd));
        lemma_weighed(c, t, w);
        lemma_weighed(c, s, v);
        let (a, b) = (t.mul(c, w), s.mul(c, v));
        let n = a.value() + b.value();
        lemma_largest(unit);
        lemma_add(c, a, b);
        let r = a.add(c, b);
        lemma_little_more(r, n);
        law_single_order_is_numeric(r, unit);
        law_single_order_is_numeric(less, r);
    }
}

} // verus!
