//! What colour filters let through, in numbers: laws of arithmetic that rounds to nearest.
use crate::calc::{Calc, Op, Width};
use crate::num::{law_single_order_is_numeric, single, single_value, F32};
use crate::rounding::{
    apart, grid, lemma_add, lemma_add_small, lemma_at_least, lemma_at_most, lemma_div, lemma_exact,
    lemma_grid, lemma_in_reach, lemma_largest, lemma_mul, lemma_mul_small, lemma_of_count, lemma_order, lemma_reached, lemma_remainder,
    lemma_small_rounded, lemma_sub, lemma_sub_small, lemma_widened, nearest, one, rounds, small,
};
use crate::video::{channel, hsv_of, hue_sector, ColorFilter, ColorFilterMode, HueSector};
use vstd::arithmetic::power2::{
    lemma2_to64, lemma_pow2_adds, lemma_pow2_pos, lemma_pow2_strictly_increases, lemma_pow2_unfold,
    pow2,
};
use vstd::prelude::*;

verus! {

/// What a filter that keeps a band lets through, one that removes it takes away: its mask
/// is one minus the other's.
pub proof fn law_removing_is_what_keeping_lacks<K: Fn(Op, Width, u64, u64) -> u64>(c: &Calc<K>, filter: ColorFilter, r: u8, g: u8, b: u8)
    ensures
        ({
            let keep = ColorFilter { mode: ColorFilterMode::Keep, ..filter };
            let remove = ColorFilter { mode: ColorFilterMode::Remove, ..filter };
            remove.multiplier(c, r, g, b) == single(0x3f80_0000).sub(
                c,
                keep.multiplier(c, r, g, b),
            )
        }),
{
    let keep = ColorFilter { mode: ColorFilterMode::Keep, ..filter };
    let remove = ColorFilter { mode: ColorFilterMode::Remove, ..filter };
    assert(keep.membership(c, r, g, b) == remove.membership(c, r, g, b));
}

// ------------------------------------------------------------------ numbers

pub(crate) proof fn lemma_ones()
    ensures
        one() > 0,
        single_value(0) == 0,
        single(0x3f80_0000).value() == one(),
        single(0xbf80_0000).value() == -one(),
{
    lemma_pow2_pos(149);
    lemma2_to64();
    assert(0x3f80_0000int / 0x80_0000 == 127 && 0x3f80_0000int % 0x80_0000 == 0);
    lemma_pow2_adds(23, 126);
    assert(single_value(0x3f80_0000) == 0x80_0000 * pow2(126));
    assert(single(0x3f80_0000).value() == single_value(0x3f80_0000));
    assert(single(0xbf80_0000).mag() == 0x3f80_0000);
}

/// What is no larger than 2^p as a pattern lies within 2^p of zero.
pub(crate) proof fn lemma_small_pattern(x: F32, p: nat)
    requires
        p <= 100,
        x.mag() <= (p + 127) * 0x80_0000,
    ensures
        small(x, p),
{
    let bound = F32 { bits: ((p + 127) * 0x80_0000) as u32 };
    let m = (p + 127) * 0x80_0000;
    assert(m / 0x80_0000 == p + 127 && m % 0x80_0000 == 0);
    assert(bound.mag() == m);
    lemma2_to64();
    lemma_pow2_adds(23, p + 126);
    assert(bound.value() == pow2(p + 149));
    law_single_order_is_numeric(x.abs(), bound);
    crate::rounding::lemma_abs(x);
}

/// How far the next pattern is.
spec fn step(mag: int) -> int {
    if mag < 0x80_0000 {
        1
    } else {
        pow2((mag / 0x80_0000 - 1) as nat) as int
    }
}

proof fn lemma_step(mag: int)
    requires
        0 <= mag,
    ensures
        single_value(mag + 1) == single_value(mag) + step(mag),
{
    lemma2_to64();
    let e = mag / 0x80_0000;
    if mag >= 0x80_0000 {
        let p = pow2((e - 1) as nat) as int;
        let f = mag % 0x80_0000;
        if f == 0x7f_ffff {
            assert((mag + 1) / 0x80_0000 == e + 1 && (mag + 1) % 0x80_0000 == 0);
            lemma_pow2_unfold(e as nat);
            assert(0x80_0000 * (2 * p) == 0xff_ffff * p + p) by (nonlinear_arith);
        } else {
            assert((mag + 1) / 0x80_0000 == e && (mag + 1) % 0x80_0000 == f + 1);
            assert((0x80_0000 + (f + 1)) * p == (0x80_0000 + f) * p + p) by (nonlinear_arith);
        }
    } else if mag == 0x7f_ffff {
        assert(single_value(0x80_0000) == 0x80_0000 * pow2(0));
    }
}

proof fn lemma_steps_grow(a: int, b: int)
    requires
        0 <= a <= b,
    ensures
        step(a) <= step(b),
{
    lemma2_to64();
    let (d, e) = (a / 0x80_0000, b / 0x80_0000);
    if b >= 0x80_0000 {
        lemma_pow2_pos((e - 1) as nat);
        if a >= 0x80_0000 && d < e {
            lemma_pow2_strictly_increases((d - 1) as nat, (e - 1) as nat);
        }
    }
}

// --------------------------------------------------------------------- hues

/// A channel lies from zero to one.
pub(crate) proof fn lemma_channel<K: Fn(Op, Width, u64, u64) -> u64>(c: &Calc<K>, v: u8)
    requires
        rounds(c),
    ensures
        channel(c, v).finite(),
        0 <= channel(c, v).value() <= one(),
{
    let u = one();
    lemma_ones();
    let zero = single(0);
    let most = single(0x437f_0000);
    assert(0x437f_0000int / 0x80_0000 == 134 && 0x437f_0000int % 0x80_0000 == 0x7f_0000);
    lemma2_to64();
    lemma_pow2_adds(16, 133);
    assert(most.value() == single_value(0x437f_0000));
    assert(most.value() == 0xff_0000 * pow2(133));
    let t = pow2(133) as int;
    assert(0xff_0000 * t == 255 * u) by (nonlinear_arith)
        requires
            u == 0x1_0000 * t,
    ;
    lemma_of_count(c, v as u64);
    let x = F32::of_count(c, v as u64);
    assert(0 <= v * u <= 255 * u) by (nonlinear_arith)
        requires
            0 <= v <= 255,
            u > 0,
    ;
    lemma_at_most(x, v * u, 1, most);
    lemma_at_least(x, v * u, 1, zero);
    let n = x.value() * u;
    let d = most.value();
    assert(0 <= n <= u * d && u * d == d * u && n <= 0x2_0000_0000_0000_0000 * (u * d)) by (nonlinear_arith)
        requires
            n == x.value() * u,
            0 <= x.value() <= d,
            u > 0,
            d > 0,
    ;
    lemma_reached(n, d);
    lemma_div(c, x, most);
    let q = x.div(c, most);
    assert(zero.value() * d == 0) by (nonlinear_arith)
        requires
            zero.value() == 0,
    ;
    lemma_at_most(q, n, d, single(0x3f80_0000));
    lemma_at_least(q, n, d, zero);
}

/// The difference of two channels over their span is a number.
proof fn lemma_slope<K: Fn(Op, Width, u64, u64) -> u64>(c: &Calc<K>, x: F32, y: F32, delta: F32)
    requires
        rounds(c),
        x.finite(),
        y.finite(),
        0 <= x.value() <= one(),
        0 <= y.value() <= one(),
        delta.finite(),
        !delta.lt(single(0x3586_37bd)),
    ensures
        small(x.sub(c, y).div(c, delta), 20),
{
    let u = one();
    lemma_ones();
    lemma_sub_small(c, x, y, 0);
    let d = x.sub(c, y);
    lemma_at_most(d, x.value() - y.value(), 1, single(0x3f80_0000));
    lemma_at_least(d, x.value() - y.value(), 1, single(0xbf80_0000));
    let least = single(0x3580_0000);
    assert(0x3580_0000int / 0x80_0000 == 107 && 0x3580_0000int % 0x80_0000 == 0);
    lemma2_to64();
    lemma_pow2_adds(23, 106);
    assert(least.value() == single_value(0x3580_0000));
    assert(least.value() == pow2(129));
    law_single_order_is_numeric(least, delta);
    lemma_pow2_pos(129);
    lemma_pow2_adds(20, 129);
    lemma_pow2_adds(20, 149);
    lemma_pow2_pos(169);
    let (n, v, t) = (d.value() * u, delta.value(), pow2(169) as int);
    assert(-(t * v) <= n <= t * v && t * v <= 0x2_0000_0000_0000_0000 * (u * v)) by (nonlinear_arith)
        requires
            n == d.value() * u,
            -u <= d.value() <= u,
            t == 0x10_0000 * u,
            u == 0x10_0000 * pow2(129),
            v >= pow2(129),
            pow2(129) > 0,
    ;
    lemma_reached(n, v);
    lemma_div(c, d, delta);
    lemma_small_rounded(d.div(c, delta), n, v, 20);
}

/// The hue of every colour is a number from 0 to 360.
proof fn lemma_hue<K: Fn(Op, Width, u64, u64) -> u64>(c: &Calc<K>, r: u8, g: u8, b: u8)
    requires
        rounds(c),
    ensures
        small(hsv_of(c, r, g, b).0, 9),
{
    lemma_ones();
    lemma_channel(c, r);
    lemma_channel(c, g);
    lemma_channel(c, b);
    let (rf, gf, bf) = (channel(c, r), channel(c, g), channel(c, b));
    let max = rf.max(gf).max(bf);
    let min = rf.min(gf).min(bf);
    lemma_sub_small(c, max, min, 0);
    let delta = max.sub(c, min);
    let (sixty, six) = (single(0x4270_0000), single(0x40c0_0000));
    lemma_small_pattern(sixty, 6);
    lemma_small_pattern(six, 3);
    law_single_order_is_numeric(single(0), six);
    let sector = hue_sector(max.sub(c, rf), max.sub(c, gf), delta);
    let h = match sector {
        HueSector::Gray => single(0),
        HueSector::Red => sixty.mul(c, gf.sub(c, bf).div(c, delta).rem_euclid(c, six)),
        HueSector::Green => sixty.mul(c, bf.sub(c, rf).div(c, delta).add(c, single(0x4000_0000))),
        HueSector::Blue => sixty.mul(c, rf.sub(c, gf).div(c, delta).add(c, single(0x4080_0000))),
    };
    assert(h.finite()) by {
        match sector {
            HueSector::Gray => {},
            HueSector::Red => {
                lemma_slope(c, gf, bf, delta);
                let q = gf.sub(c, bf).div(c, delta);
                lemma_remainder(c, q, six);
                assert(small(q.rem_euclid(c, six), 3));
                lemma_mul_small(c, sixty, 6, q.rem_euclid(c, six), 3);
            },
            HueSector::Green => {
                lemma_slope(c, bf, rf, delta);
                lemma_small_pattern(single(0x4000_0000), 20);
                let q = bf.sub(c, rf).div(c, delta);
                lemma_add_small(c, q, single(0x4000_0000), 20);
                lemma_mul_small(c, sixty, 6, q.add(c, single(0x4000_0000)), 21);
            },
            HueSector::Blue => {
                lemma_slope(c, rf, gf, delta);
                lemma_small_pattern(single(0x4080_0000), 20);
                let q = rf.sub(c, gf).div(c, delta);
                lemma_add_small(c, q, single(0x4080_0000), 20);
                lemma_mul_small(c, sixty, 6, q.add(c, single(0x4080_0000)), 21);
            },
        }
    }
    let round = single(0x43b4_0000);
    lemma_small_pattern(round, 9);
    law_single_order_is_numeric(single(0), round);
    lemma_remainder(c, h, round);
}

proof fn lemma_gap<K: Fn(Op, Width, u64, u64) -> u64>(c: &Calc<K>, f: ColorFilter, h: F32)
    requires
        rounds(c),
        f.hue_center.finite(),
        small(h, 9),
    ensures
        f.hue_gap(c, h).finite(),
{
    lemma_pow2_strictly_increases(158, 252);
    lemma_largest(f.hue_center);
    lemma_sub(c, h, f.hue_center);
    let round = single(0x43b4_0000);
    lemma_small_pattern(round, 9);
    assert(single_value(0) == 0);
    law_single_order_is_numeric(single(0), round);
    let e = h.sub(c, f.hue_center);
    lemma_remainder(c, e, round);
    lemma_sub_small(c, round, e.rem_euclid(c, round), 9);
}

// -------------------------------------------------------------------- bands

/// On the ramp between the rounded edges of a band, the way from the inner edge is no
/// longer than the ramp.
proof fn lemma_ramp(lo: F32, m: int, hi: F32, s: int, d: F32)
    requires
        nearest(lo, m, 1),
        nearest(hi, s, 1),
        d.finite(),
        lo.finite(),
        hi.finite(),
        0 <= lo.value() < d.value() < hi.value(),
    ensures
        d.value() - lo.value() <= s - m,
{
    reveal(nearest);
    let zero = F32 { bits: 0 };
    assert(single_value(0) == 0);
    law_single_order_is_numeric(zero, d);
    law_single_order_is_numeric(zero, hi);
    law_single_order_is_numeric(lo, d);
    law_single_order_is_numeric(d, hi);
    law_single_order_is_numeric(zero, lo);
    assert(apart(hi.value() * 1, s) <= apart(d.value() * 1, s));
    let e = s - d.value();
    assert(hi.value() - d.value() <= 2 * e);
    // The single next to the inner edge.
    let z = F32 { bits: (lo.mag() + 1) as u32 };
    lemma_step(lo.mag());
    lemma_step(d.mag());
    lemma_steps_grow(lo.mag(), d.mag());
    let past = F32 { bits: (d.mag() + 1) as u32 };
    assert(lo.mag() < d.mag() < hi.mag());
    assert(past.mag() == d.mag() + 1 && z.mag() == lo.mag() + 1);
    law_single_order_is_numeric(past, hi);
    assert(lo.value() == single_value(lo.mag()));
    assert(z.value() <= lo.value() + 2 * e);
    assert(z.value() > lo.value()) by {
        law_single_order_is_numeric(lo, z);
    }
    assert(apart(lo.value() * 1, m) <= apart(z.value() * 1, m));
}

/// How much a filter's band holds of a hue, whether or not the colour counts.
pub open spec fn in_band<K: Fn(Op, Width, u64, u64) -> u64>(c: &Calc<K>, f: ColorFilter, d: F32) -> F32 {
    let half = f.hue_width.div(c, single(0x4000_0000)).max(single(0x3a83_126f));
    let soft = half.mul(c, f.softness.clamp(single(0), single(0x3f80_0000))).max(single(0x3a83_126f));
    if d.le(half.sub(c, soft)) {
        single(0x3f80_0000)
    } else if half.add(c, soft).le(d) {
        single(0)
    } else {
        single(0x3f80_0000).sub(c, d.sub(c, half.sub(c, soft)).div(c, single(0x4000_0000).mul(c, soft)))
    }
}

/// Half a band's width, and its soft edge within it.
proof fn lemma_edges<K: Fn(Op, Width, u64, u64) -> u64>(c: &Calc<K>, f: ColorFilter)
    requires
        rounds(c),
        f.hue_width.finite(),
        f.softness.finite(),
    ensures
        ({
            let half = f.hue_width.div(c, single(0x4000_0000)).max(single(0x3a83_126f));
            let soft = half.mul(c, f.softness.clamp(single(0), single(0x3f80_0000))).max(
                single(0x3a83_126f),
            );
            &&& half.finite()
            &&& soft.finite()
            &&& 0 < soft.value() <= half.value()
            &&& 2 * half.value() <= single(0x7f7f_ffff).value()
        }),
{
    let u = one();
    lemma_ones();
    let two = single(0x4000_0000);
    let tiny = single(0x3a83_126f);
    assert(0x4000_0000int / 0x80_0000 == 128 && 0x4000_0000int % 0x80_0000 == 0);
    lemma2_to64();
    lemma_pow2_adds(23, 127);
    lemma_pow2_adds(1, 149);
    assert(two.value() == single_value(0x4000_0000));
    assert(two.value() == 2 * u);
    let w = f.hue_width.value();
    lemma_largest(f.hue_width);
    let (top, most) = (single(0x7f7f_ffff).value(), single(0x7eff_ffff));
    assert(0x7eff_ffffint / 0x80_0000 == 253 && 0x7eff_ffffint % 0x80_0000 == 0x7f_ffff);
    assert(most.value() == single_value(0x7eff_ffff));
    lemma_pow2_unfold(253);
    assert(2 * most.value() == top);
    assert(apart(w * u, 0) <= top * (2 * u) && w * u <= most.value() * (2 * u)) by (nonlinear_arith)
        requires
            -top <= w <= top,
            2 * most.value() == top,
            u > 0,
    ;
    lemma_in_reach(w * u, 2 * u);
    lemma_div(c, f.hue_width, two);
    let q = f.hue_width.div(c, two);
    lemma_at_most(q, w * u, 2 * u, most);
    let half = q.max(tiny);
    law_single_order_is_numeric(tiny, most);
    law_single_order_is_numeric(q, most);
    assert(half.value() <= most.value());
    law_single_order_is_numeric(tiny, half);
    law_single_order_is_numeric(single(0), tiny);
    let part = f.softness.clamp(single(0), single(0x3f80_0000));
    law_single_order_is_numeric(single(0), part);
    law_single_order_is_numeric(part, single(0x3f80_0000));
    let prod = half.mul(c, part);
    let (hv, pv) = (half.value(), part.value());
    assert(0 <= hv * pv <= hv * u && hv * u <= top * u) by (nonlinear_arith)
        requires
            0 <= hv <= top,
            0 <= pv <= u,
    ;
    lemma_in_reach(hv * pv, u);
    lemma_mul(c, half, part);
    lemma_at_most(prod, hv * pv, u, half);
    let soft = prod.max(tiny);
    law_single_order_is_numeric(tiny, soft);
}

/// A band holds from none to all of a hue.
proof fn lemma_in_band<K: Fn(Op, Width, u64, u64) -> u64>(c: &Calc<K>, f: ColorFilter, d: F32)
    requires
        rounds(c),
        f.hue_width.finite(),
        f.softness.finite(),
        d.finite(),
    ensures
        in_band(c, f, d).finite(),
        0 <= in_band(c, f, d).value() <= one(),
{
    let u = one();
    lemma_ones();
    lemma_edges(c, f);
    let zero = single(0);
    let unit = single(0x3f80_0000);
    let half = f.hue_width.div(c, single(0x4000_0000)).max(single(0x3a83_126f));
    let soft = half.mul(c, f.softness.clamp(zero, unit)).max(single(0x3a83_126f));
    let (m, s) = (half.value() - soft.value(), half.value() + soft.value());
    let top = single(0x7f7f_ffff).value();
    lemma_in_reach(m, 1);
    lemma_in_reach(s, 1);
    lemma_sub(c, half, soft);
    lemma_add(c, half, soft);
    let (lo, hi) = (half.sub(c, soft), half.add(c, soft));
    lemma_at_least(lo, m, 1, zero);
    if !d.le(lo) && !hi.le(d) {
        law_single_order_is_numeric(lo, d);
        law_single_order_is_numeric(d, hi);
        lemma_ramp(lo, m, hi, s, d);
        let n = d.value() - lo.value();
        lemma_largest(d);
        lemma_in_reach(n, 1);
        lemma_sub(c, d, lo);
        let t = d.sub(c, lo);
        lemma_at_least(t, n, 1, zero);
        // The ramp's length.
        let two = single(0x4000_0000);
        assert(0x4000_0000int / 0x80_0000 == 128 && 0x4000_0000int % 0x80_0000 == 0);
        lemma2_to64();
        lemma_pow2_adds(23, 127);
        lemma_pow2_adds(1, 149);
        assert(two.value() == single_value(0x4000_0000));
        let sv = soft.value();
        let exact = two.value() * sv;
        assert(sv * u <= exact && n * u <= exact && exact <= top * u && 0 < exact) by (nonlinear_arith)
            requires
                exact == (2 * u) * sv,
                n <= 2 * sv,
                2 * sv <= top,
                sv > 0,
                u > 0,
        ;
        lemma_in_reach(exact, u);
        lemma_mul(c, two, soft);
        let den = two.mul(c, soft);
        lemma_at_least(den, exact, u, soft);
        lemma_widened(t, n, u);
        lemma_order(t, n * u, den, exact, u);
        // How far along it the hue is.
        let (tv, dv) = (t.value(), den.value());
        assert(0 <= tv * u <= u * dv && u * dv == dv * u && tv * u <= 0x2_0000_0000_0000_0000 * (u * dv)) by (nonlinear_arith)
            requires
                0 <= tv <= dv,
                u > 0,
                dv > 0,
        ;
        lemma_reached(tv * u, dv);
        lemma_div(c, t, den);
        let q = t.div(c, den);
        assert(zero.value() * dv == 0) by (nonlinear_arith)
            requires
                zero.value() == 0,
        ;
        lemma_at_most(q, tv * u, dv, unit);
        lemma_at_least(q, tv * u, dv, zero);
        lemma_lack(c, q);
    }
}

/// What a number from zero to one lacks to one is such a number, and the two add up to one.
proof fn lemma_lack<K: Fn(Op, Width, u64, u64) -> u64>(c: &Calc<K>, x: F32)
    requires
        rounds(c),
        x.finite(),
        0 <= x.value() <= one(),
    ensures
        ({
            let r = single(0x3f80_0000).sub(c, x);
            &&& r.finite()
            &&& 0 <= r.value() <= one()
            &&& x.add(c, r).finite()
            &&& x.add(c, r).value() == one()
        }),
{
    let u = one();
    lemma_ones();
    let unit = single(0x3f80_0000);
    let zero = single(0);
    lemma_sub_small(c, unit, x, 0);
    let n = u - x.value();
    let r = unit.sub(c, x);
    lemma_at_most(r, n, 1, unit);
    lemma_at_least(r, n, 1, zero);
    // It is at most half a step away.
    let h = pow2(125) as int;
    lemma_pow2_pos(125);
    lemma_pow2_adds(24, 125);
    lemma2_to64();
    assert(u == 0x100_0000 * h);
    let k = (2 * n + h) / (2 * h);
    assert(k * (2 * h) <= 2 * n + h < k * (2 * h) + 2 * h && 0 <= k <= 0x100_0000) by (nonlinear_arith)
        requires
            k == (2 * n + h) / (2 * h),
            h > 0,
            0 <= n <= 0x100_0000 * h,
    ;
    assert(k * (2 * h) == 2 * (k * h)) by (nonlinear_arith);
    let y = if k == 0x100_0000 {
        unit
    } else {
        grid(k, 126)
    };
    if k < 0x100_0000 {
        lemma_grid(k, 126);
    }
    assert(y.value() == k * h);
    assert(2 * apart(r.value(), n) <= h) by {
        reveal(nearest);
        assert(apart(r.value() * 1, n) <= apart(y.value() * 1, n));
    }
    // The sum.
    lemma_add_small(c, x, r, 0);
    let z = x.add(c, r);
    let sum = x.value() + r.value();
    assert(2 * apart(sum, u) <= h);
    let below = single(0x3f7f_ffff);
    assert(0x3f7f_ffffint / 0x80_0000 == 126 && 0x3f7f_ffffint % 0x80_0000 == 0x7f_ffff);
    assert(below.value() == single_value(0x3f7f_ffff));
    assert(below.value() == u - h);
    law_single_order_is_numeric(z, unit);
    law_single_order_is_numeric(z, below);
    law_single_order_is_numeric(unit, z);
    let above = single(0x3f80_0001);
    assert(0x3f80_0001int / 0x80_0000 == 127 && 0x3f80_0001int % 0x80_0000 == 1);
    lemma_pow2_adds(1, 125);
    lemma_pow2_adds(23, 126);
    assert(above.value() == single_value(0x3f80_0001));
    assert(above.value() == u + 2 * h) by {
        let g = pow2(126) as int;
        assert(0x80_0001 * g == 0x80_0000 * g + g) by (nonlinear_arith);
    }
    law_single_order_is_numeric(above, z);
    reveal(nearest);
    assert(apart(z.value() * 1, sum) <= apart(unit.value() * 1, sum));
}

/// The masks of two filters that differ in their mode alone share a colour out: each lies
/// from zero to one, and they add up to one; of a colour with too little saturation or
/// brightness to have a hue, keeping lets nothing through and removing all.
pub proof fn law_masks_share_out<K: Fn(Op, Width, u64, u64) -> u64>(c: &Calc<K>, filter: ColorFilter, r: u8, g: u8, b: u8)
    requires
        rounds(c),
        filter.hue_center.finite(),
        filter.hue_width.finite(),
        filter.softness.finite(),
    ensures
        ({
            let keep = (ColorFilter { mode: ColorFilterMode::Keep, ..filter }).multiplier(c, r, g, b);
            let remove = (ColorFilter { mode: ColorFilterMode::Remove, ..filter }).multiplier(
                c,
                r,
                g,
                b,
            );
            let (_h, s, v) = hsv_of(c, r, g, b);
            &&& single(0).le(keep) && keep.le(single(0x3f80_0000))
            &&& single(0).le(remove) && remove.le(single(0x3f80_0000))
            &&& keep.add(c, remove).value() == one()
            &&& !(filter.sat_min.le(s) && filter.val_min.le(v)) ==> keep.value() == 0
                && remove.value() == one()
        }),
{
    let u = one();
    lemma_ones();
    let (h, s, v) = hsv_of(c, r, g, b);
    let zero = single(0);
    let unit = single(0x3f80_0000);
    lemma_hue(c, r, g, b);
    lemma_gap(c, filter, h);
    let keeping = ColorFilter { mode: ColorFilterMode::Keep, ..filter };
    let removing = ColorFilter { mode: ColorFilterMode::Remove, ..filter };
    let d = filter.hue_gap(c, h);
    assert(keeping.hue_gap(c, h) == d && removing.hue_gap(c, h) == d);
    lemma_in_band(c, filter, d);
    let inside = in_band(c, filter, d);
    let colored = if filter.sat_min.le(s) && filter.val_min.le(v) {
        unit
    } else {
        zero
    };
    let keep = keeping.multiplier(c, r, g, b);
    let remove = removing.multiplier(c, r, g, b);
    assert(keep == inside.mul(c, colored));
    assert(remove == unit.sub(c, keep));
    lemma_mul_small(c, inside, 0, colored, 0);
    let iv = inside.value();
    if colored == unit {
        lemma_exact(keep, iv * u, u, inside);
    } else {
        assert(iv * zero.value() == 0 && zero.value() * u == 0) by (nonlinear_arith)
            requires
                zero.value() == 0,
        ;
        lemma_exact(keep, 0, u, zero);
    }
    lemma_lack(c, keep);
    law_single_order_is_numeric(zero, keep);
    law_single_order_is_numeric(keep, unit);
    law_single_order_is_numeric(zero, remove);
    law_single_order_is_numeric(remove, unit);
    if colored == zero {
        lemma_sub_small(c, unit, keep, 0);
        lemma_exact(remove, u - keep.value(), 1, unit);
    }
}

} // verus!
