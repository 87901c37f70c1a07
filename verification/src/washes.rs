//! How loud a wash can be where it is not brought to a level, because it or the clip it is
//! made of is next to silent.
use crate::audio::power_of;
use crate::calc::{Calc, Op, Width};
use crate::dsp::{drawn_unit, law_unit_draws_stay_in_range, seeded, stirred_by};
use crate::fft::{hann_of, magnitude, paired, reordered, reversed, stages, transformed, Cpx};
use crate::masks::lemma_ones;
use crate::num::{law_single_order_is_numeric, single, single_value, F32, F64};
use crate::plane::{
    lemma_nought_within, lemma_parts, lemma_scaled_twice, lemma_scaled_within, lemma_sum_size, lemma_unscaled_within,
    lemma_wider, within, Cx,
};
use crate::rounding::{
    apart, grid, lemma_add, lemma_at_least, lemma_at_most, lemma_div, lemma_finite, lemma_grid, lemma_in_reach, lemma_largest,
    lemma_mul, lemma_of_count, lemma_product, lemma_reached, lemma_root, lemma_sub, lemma_sum, nearest, one, reached, rounds,
};
use crate::spectra::{
    lemma_level, lemma_level_size, lemma_near, lemma_share, lemma_stages_len, level, moderate, numeric, off, roots_of_unity,
    stage_slack, twiddles_follow, val, values,
};
use crate::stretch::{
    clamp_factor, conjugate, law_levelled_samples_stay_in_range, lemma_segment_reach, levelled, overlap, phaseless, rephased, rms_of, scrambled,
    segment_at, segment_in, segment_out, segment_phase, share, stretched, wash, washed, window_bits,
};
use vstd::arithmetic::power2::{
    lemma2_to64, lemma_pow2_adds, lemma_pow2_pos, lemma_pow2_strictly_increases, lemma_pow2_unfold, pow2,
};
use vstd::prelude::*;

verus! {

// ------------------------------------------------------------------ infinity

/// The positive infinity.
pub open spec fn endless() -> F32 {
    F32 { bits: 0x7f80_0000 }
}

/// Whether infinity stays infinite: in sums with what is not negative, shared out, and
/// under a root.
#[verifier::opaque]
pub open spec fn infinity_stays<K: Fn(Op, Width, u64, u64) -> u64>(c: &Calc<K>) -> bool {
    &&& endless().sqrt(c) == endless()
    &&& endless().add(c, endless()) == endless()
    &&& forall|a: F32| a.finite() && a.value() >= 0 ==> #[trigger] endless().add(c, a) == endless()
    &&& forall|a: F32| a.finite() && a.value() >= 0 ==> #[trigger] a.add(c, endless()) == endless()
    &&& forall|a: F32| a.finite() && a.value() > 0 ==> #[trigger] endless().div(c, a) == endless()
}

/// Not negative and no smaller than `n` units: a finite number, or infinity.
spec fn reaches(x: F32, n: int) -> bool {
    x == endless() || (x.finite() && x.value() >= n && x.value() >= 0)
}

proof fn lemma_square<K: Fn(Op, Width, u64, u64) -> u64>(c: &Calc<K>, s: F32)
    requires
        rounds(c),
        s.finite(),
    ensures
        reaches(s.mul(c, s), 0),
{
    lemma_ones();
    let n = s.value() * s.value();
    assert(n >= 0) by (nonlinear_arith)
        requires
            n == s.value() * s.value(),
    ;
    lemma_product(c, s, s);
    if reached(n, one()) {
        assert(0 * one() == 0);
        lemma_at_least(s.mul(c, s), n, one(), single(0));
        lemma_finite(s.mul(c, s), n, one());
    } else {
        lemma_in_reach(0, one());
    }
}

/// A sum of what is not negative reaches each of the two.
proof fn lemma_sum_reaches<K: Fn(Op, Width, u64, u64) -> u64>(c: &Calc<K>, a: F32, n: int, b: F32, m: int)
    requires
        rounds(c),
        infinity_stays(c),
        reaches(a, n),
        reaches(b, m),
    ensures
        reaches(a.add(c, b), n),
        reaches(a.add(c, b), m),
{
    reveal(infinity_stays);
    if a.finite() && b.finite() {
        lemma_ones();
        lemma_sum(c, a, b);
        let s = a.value() + b.value();
        if reached(s, 1) {
            lemma_at_least(a.add(c, b), s, 1, a);
            lemma_at_least(a.add(c, b), s, 1, b);
            lemma_finite(a.add(c, b), s, 1);
        } else {
            lemma_in_reach(0, 1);
        }
    }
}

/// The power of finite samples reaches the square of each.
proof fn lemma_power<K: Fn(Op, Width, u64, u64) -> u64>(c: &Calc<K>, v: Seq<F32>, i: int, n: int)
    requires
        rounds(c),
        infinity_stays(c),
        forall|j: int| 0 <= j < v.len() ==> (#[trigger] v[j]).finite(),
        0 <= i < v.len() ==> reaches(v[i].mul(c, v[i]), n),
    ensures
        reaches(power_of(c, single(0), v), 0),
        0 <= i < v.len() ==> reaches(power_of(c, single(0), v), n),
    decreases v.len(),
{
    lemma_ones();
    if v.len() > 0 {
        let rest = v.drop_last();
        let last = v.last();
        lemma_power(c, rest, i, n);
        lemma_square(c, last);
        let sum = power_of(c, single(0), rest);
        lemma_sum_reaches(c, sum, 0, last.mul(c, last), 0);
        if i == v.len() - 1 {
            lemma_sum_reaches(c, sum, 0, last.mul(c, last), n);
        } else if 0 <= i < v.len() {
            assert(rest[i] == v[i]);
            lemma_sum_reaches(c, sum, n, last.mul(c, last), 0);
        }
    }
}

// ---------------------------------------------------------------- next to silent

/// How little counts as silence, in units.
proof fn lemma_threshold()
    ensures
        single(0x3089_705f).finite(),
        single(0x3089_705f).value() < pow2(120),
        single(0x3089_705f).value() < endless().value(),
{
    lemma2_to64();
    assert(0x3089_705fint / 0x80_0000 == 97 && 0x3089_705fint % 0x80_0000 == 0x9_705f);
    assert(single(0x3089_705f).value() == single_value(0x3089_705f));
    lemma_pow2_adds(24, 96);
    lemma_pow2_pos(96);
    let t = pow2(96) as int;
    assert(0x89_705f * t < 0x100_0000 * t) by (nonlinear_arith)
        requires
            t > 0,
    ;
    law_single_order_is_numeric(single(0x3089_705f), endless());
}

/// Where the mean square is next to nothing, so is the power.
#[verifier::rlimit(40)]
proof fn lemma_little_power<K: Fn(Op, Width, u64, u64) -> u64>(c: &Calc<K>, v: Seq<F32>)
    requires
        rounds(c),
        infinity_stays(c),
        forall|j: int| 0 <= j < v.len() ==> (#[trigger] v[j]).finite(),
        1 <= v.len() <= u64::MAX,
        !single(0x3089_705f).lt(rms_of(c, v)),
    ensures
        power_of(c, single(0), v).finite(),
        power_of(c, single(0), v).value() < pow2(92) * v.len(),
{
    let u = one();
    let p = power_of(c, single(0), v);
    let n = v.len() as int;
    let count = F32::of_count(c, v.len() as u64);
    lemma_ones();
    lemma_threshold();
    lemma2_to64();
    lemma_power(c, v, -1, 0);
    lemma_of_count(c, v.len() as u64);
    assert(u <= n * u <= 0x1_0000_0000_0000_0000 * u) by (nonlinear_arith)
        requires
            1 <= n <= 0x1_0000_0000_0000_0000,
            u > 0,
    ;
    lemma_at_least(count, n * u, 1, single(0x3f80_0000));
    lemma_near(count, n * u, 1);
    lemma_pow2_strictly_increases(45, 149);
    lemma_pow2_adds(13, 32);
    assert(count.value() <= 2 * (n * u));
    if p == endless() {
        reveal(infinity_stays);
        law_single_order_is_numeric(single(0x3089_705f), endless());
    } else {
        let m = p.div(c, count);
        let k = count.value();
        lemma_largest(p);
        let top = single(0x7f7f_ffff).value();
        assert(0 <= p.value() * u <= top * k) by (nonlinear_arith)
            requires
                0 <= p.value() <= top,
                0 < u <= k,
        ;
        lemma_in_reach(p.value() * u, k);
        lemma_div(c, p, count);
        assert(crate::num::single_value(0) == 0);
        assert(single(0).value() * k == 0) by (nonlinear_arith)
            requires
                single(0).value() == 0,
        ;
        lemma_at_least(m, p.value() * u, k, single(0));
        let (y, z) = (grid(1, 121), grid(1, 92));
        lemma_grid(1, 121);
        lemma_grid(1, 92);
        lemma_root(c, m, y);
        law_single_order_is_numeric(single(0x3089_705f), m.sqrt(c));
        lemma_pow2_adds(120, 120);
        lemma_pow2_adds(91, 149);
        lemma_pow2_unfold(92);
        let (a, b) = (pow2(91) as int, p.value());
        assert(m.value() < a) by {
            if m.value() >= a {
                assert(m.value() * u >= a * u) by (nonlinear_arith)
                    requires
                        m.value() >= a,
                        u > 0,
                ;
            }
        }
        if b >= (2 * a) * n {
            assert(b * u >= a * k) by (nonlinear_arith)
                requires
                    b >= (2 * a) * n,
                    k <= 2 * (n * u),
                    a >= 0,
                    u > 0,
            {
                assert(b * u >= ((2 * a) * n) * u);
                assert(a * k <= a * (2 * (n * u)));
                assert(a * (2 * (n * u)) == ((2 * a) * n) * u);
            }
            lemma_at_least(m, b * u, k, z);
        }
    }
}

/// Each sample of a sound that is next to silent is small: no larger than 2^(e - 149), for
/// a sound that is no longer than the square of that over 2^-57.
proof fn lemma_soft<K: Fn(Op, Width, u64, u64) -> u64>(c: &Calc<K>, v: Seq<F32>, i: int, e: nat)
    requires
        rounds(c),
        infinity_stays(c),
        forall|j: int| 0 <= j < v.len() ==> (#[trigger] v[j]).finite(),
        0 <= i < v.len() <= u64::MAX,
        !single(0x3089_705f).lt(rms_of(c, v)),
        86 <= e <= 149,
        pow2(92) * v.len() <= pow2((2 * e - 149) as nat),
    ensures
        apart(v[i].value(), 0) < pow2(e),
{
    let u = one();
    let s = v[i].value();
    let (g, f) = (pow2(e) as int, (2 * e - 149) as nat);
    lemma_ones();
    lemma_pow2_pos(e);
    lemma_little_power(c, v);
    lemma_square(c, v[i]);
    if apart(s, 0) >= g {
        let y = grid(1, f as int + 1);
        lemma_grid(1, f as int + 1);
        lemma_pow2_adds(e, e);
        lemma_pow2_adds(f, 149);
        assert(s * s >= g * g) by (nonlinear_arith)
            requires
                s >= g || s <= -g,
                g > 0,
        ;
        let q = v[i].mul(c, v[i]);
        assert(reaches(q, pow2(f) as int)) by {
            lemma_product(c, v[i], v[i]);
            if reached(s * s, u) {
                lemma_at_least(q, s * s, u, y);
            } else {
                lemma_in_reach(0, u);
            }
        }
        lemma_power(c, v, i, pow2(f) as int);
    }
}

spec fn in_range(s: F32) -> bool {
    single(0xbf80_0000).at_most(s) && s.at_most(single(0x3f80_0000))
}

proof fn lemma_in_range(s: F32)
    requires
        s.finite(),
        apart(s.value(), 0) <= one(),
    ensures
        in_range(s),
{
    lemma_ones();
    law_single_order_is_numeric(single(0xbf80_0000), s);
    law_single_order_is_numeric(s, single(0x3f80_0000));
}

/// A wash of finite samples that is next to silent, and so is left as it is, stays within
/// -1..=1.
pub proof fn law_soft_washes_stay_in_range<K: Fn(Op, Width, u64, u64) -> u64>(c: &Calc<K>, input: Seq<F32>, out: Seq<F32>, i: int)
    requires
        rounds(c),
        infinity_stays(c),
        forall|j: int| 0 <= j < out.len() ==> (#[trigger] out[j]).finite(),
        0 <= i < out.len() <= 0x200_0000_0000_0000,
        !single(0x3089_705f).lt(rms_of(c, out)),
    ensures
        single(0xbf80_0000).at_most(levelled(c, input, out)[i]),
        levelled(c, input, out)[i].at_most(single(0x3f80_0000)),
{
    lemma2_to64();
    lemma_pow2_adds(25, 32);
    lemma_pow2_adds(92, 57);
    lemma_pow2_pos(92);
    let n = out.len() as int;
    assert(pow2(92) * n <= pow2(92) * pow2(57)) by (nonlinear_arith)
        requires
            n <= pow2(57),
    ;
    lemma_soft(c, out, i, 149);
    lemma_in_range(out[i]);
}

// ------------------------------------------------------------------- windows

/// Whether sines and cosines of numbers lie from -1 to 1.
#[verifier::opaque]
pub open spec fn waves_stay_in_range<K: Fn(Op, Width, u64, u64) -> u64>(c: &Calc<K>) -> bool {
    &&& forall|x: F32| x.finite() ==> (#[trigger] x.cos(c)).finite() && apart(x.cos(c).value(), 0) <= one()
    &&& forall|x: F32| x.finite() ==> (#[trigger] x.sin(c)).finite() && apart(x.sin(c).value(), 0) <= one()
}

pub(crate) proof fn lemma_wave<K: Fn(Op, Width, u64, u64) -> u64>(c: &Calc<K>, x: F32)
    requires
        waves_stay_in_range(c),
        x.finite(),
    ensures
        x.cos(c).finite(),
        x.sin(c).finite(),
        apart(x.cos(c).value(), 0) <= one(),
        apart(x.sin(c).value(), 0) <= one(),
{
    reveal(waves_stay_in_range);
}

/// What is no larger than `m * 2^e` units rounds to what is no larger.
proof fn lemma_cap(x: F32, n: int, d: int, m: int, e: nat)
    requires
        nearest(x, n, d),
        d > 0,
        0 < m < 0x100_0000,
        23 <= e < 254,
        apart(n, 0) <= (m * pow2(e)) * d,
    ensures
        apart(x.value(), 0) <= m * pow2(e),
{
    lemma_grid(m, e as int + 1);
    lemma_grid(-m, e as int + 1);
    assert((-m) * pow2(e) == -(m * pow2(e)) && (-(m * pow2(e))) * d == -((m * pow2(e)) * d)) by (nonlinear_arith);
    lemma_at_most(x, n, d, grid(m, e as int + 1));
    lemma_at_least(x, n, d, grid(-m, e as int + 1));
}

/// A number times one that is no larger than one.
proof fn lemma_under<K: Fn(Op, Width, u64, u64) -> u64>(c: &Calc<K>, x: F32, h: F32, m: int, e: nat)
    requires
        rounds(c),
        x.finite(),
        h.finite(),
        0 < m < 0x100_0000,
        23 <= e <= 149,
        apart(x.value(), 0) <= m * pow2(e),
        apart(h.value(), 0) <= one(),
    ensures
        x.mul(c, h).finite(),
        apart(x.mul(c, h).value(), 0) <= m * pow2(e),
{
    let u = one();
    let (a, n) = (m * pow2(e), x.value() * h.value());
    lemma_pow2_pos(149);
    lemma_pow2_pos(e);
    assert(apart(n, 0) <= a * u) by (nonlinear_arith)
        requires
            n == x.value() * h.value(),
            -a <= x.value() <= a,
            -u <= h.value() <= u,
    ;
    lemma_little(m, e, u);
    lemma_mul(c, x, h);
    lemma_cap(x.mul(c, h), n, u, m, e);
}

/// Numbers of this size are within reach.
proof fn lemma_little(m: int, e: nat, d: int)
    requires
        0 < m < 0x100_0000,
        e <= 149,
        d > 0,
    ensures
        0 <= (m * pow2(e)) * d,
        forall|n: int| apart(n, 0) <= 2 * ((m * pow2(e)) * d) ==> #[trigger] reached(n, d),
{
    lemma_pow2_pos(149);
    lemma_pow2_pos(e);
    if e < 149 {
        lemma_pow2_strictly_increases(e, 149);
    }
    let (p, u, a) = (pow2(e) as int, one(), m * pow2(e));
    assert(0 <= a <= 0x100_0000 * u) by (nonlinear_arith)
        requires
            a == m * p,
            0 < m < 0x100_0000,
            0 < p <= u,
    ;
    assert(0 <= a * d <= (0x100_0000 * u) * d) by (nonlinear_arith)
        requires
            0 <= a <= 0x100_0000 * u,
            d > 0,
    ;
    assert((0x100_0000 * u) * d == 0x100_0000 * (u * d)) by (nonlinear_arith);
    assert(u * d > 0) by (nonlinear_arith)
        requires
            u > 0,
            d > 0,
    ;
    assert forall|n: int| apart(n, 0) <= 2 * (a * d) implies #[trigger] reached(n, d) by {
        lemma_reached(n, d);
    }
}

/// The angle of point `i` of a window of `w`.
#[verifier::rlimit(40)]
proof fn lemma_angle<K: Fn(Op, Width, u64, u64) -> u64>(c: &Calc<K>, i: u64, w: u64)
    requires
        rounds(c),
        i <= 0x1000_0000_0000_0000,
        w >= 1,
    ensures
        single(0x40c9_0fdb).mul(c, F32::of_count(c, i)).div(c, F32::of_count(c, w)).finite(),
{
    let u = one();
    lemma_ones();
    lemma_of_count(c, i);
    lemma_of_count(c, w);
    let (x, y) = (F32::of_count(c, i), F32::of_count(c, w));
    assert(0 <= i * u <= 0x1000_0000_0000_0000 * u && u <= w * u) by (nonlinear_arith)
        requires
            0 <= i <= 0x1000_0000_0000_0000,
            w >= 1,
            u > 0,
    ;
    lemma_pow2_adds(60, 149);
    lemma_pow2_adds(28, 32);
    lemma2_to64();
    assert(1 * pow2(209) * 1 == 0x1000_0000_0000_0000 * u);
    lemma_cap(x, i * u, 1, 1, 209);
    lemma_at_least(y, w * u, 1, single(0x3f80_0000));
    // Two pi is less than eight.
    let turn = single(0x40c9_0fdb);
    assert(0x40c9_0fdbint / 0x80_0000 == 129 && 0x40c9_0fdbint % 0x80_0000 == 0x49_0fdb);
    assert(turn.value() == single_value(0x40c9_0fdb));
    lemma_pow2_adds(21, 128);
    let t = pow2(128) as int;
    lemma_pow2_pos(128);
    assert(0 < 0xc9_0fdb * t <= 8 * (0x20_0000 * t)) by (nonlinear_arith)
        requires
            t > 0,
    ;
    let n = turn.value() * x.value();
    let big = 0x8000_0000_0000_0000 * u;
    assert(apart(n, 0) <= big * u) by (nonlinear_arith)
        requires
            n == turn.value() * x.value(),
            0 < turn.value() <= 8 * u,
            -(0x1000_0000_0000_0000 * u) <= x.value() <= 0x1000_0000_0000_0000 * u,
            big == 0x8000_0000_0000_0000 * u,
            u > 0,
    ;
    assert(big * u == 0x8000_0000_0000_0000 * (u * u)) by (nonlinear_arith)
        requires
            big == 0x8000_0000_0000_0000 * u,
    ;
    assert(u * u >= 0) by (nonlinear_arith);
    lemma_reached(n, u);
    lemma_mul(c, turn, x);
    let z = turn.mul(c, x);
    lemma_near(z, n, u);
    let k = y.value();
    lemma_pow2_strictly_increases(45, 149);
    lemma_pow2_adds(13, 32);
    assert(0x2000_0000_0000 * u <= u * u && u * u <= u * k) by (nonlinear_arith)
        requires
            0x2000_0000_0000 <= u <= k,
            u > 0,
    ;
    assert(apart(z.value() * u, 0) <= 0x1_0000_0000_0000_0000 * (u * k)) by (nonlinear_arith)
        requires
            0x40_0000 * apart(z.value() * u, n) <= apart(n, 0) + 0x2000_0000_0000 * u,
            apart(n, 0) <= 0x8000_0000_0000_0000 * (u * u),
            0x2000_0000_0000 * u <= u * u,
            u * u <= u * k,
    ;
    lemma_reached(z.value() * u, k);
    lemma_div(c, z, y);
}

/// A window's weights lie from zero to one.
proof fn lemma_hann<K: Fn(Op, Width, u64, u64) -> u64>(c: &Calc<K>, i: u64, w: u64)
    requires
        rounds(c),
        waves_stay_in_range(c),
        i <= 0x1000_0000_0000_0000,
        w >= 1,
    ensures
        hann_of(c, i, w).finite(),
        0 <= hann_of(c, i, w).value() <= one(),
{
    let u = one();
    lemma_ones();
    lemma_half();
    lemma_angle(c, i, w);
    let angle = single(0x40c9_0fdb).mul(c, F32::of_count(c, i)).div(c, F32::of_count(c, w));
    lemma_wave(c, angle);
    let half = single(0x3f00_0000);
    lemma_under(c, half, angle.cos(c), 1, 148);
    let m = half.mul(c, angle.cos(c));
    lemma_pow2_unfold(149);
    lemma_little(1, 149, 1);
    lemma_sub(c, half, m);
    let n = half.value() - m.value();
    assert(reached(n, 1));
    lemma_at_least(half.sub(c, m), n, 1, single(0));
    lemma_at_most(half.sub(c, m), n, 1, single(0x3f80_0000));
}

proof fn lemma_half()
    ensures
        single(0x3f00_0000).finite(),
        single(0x3f00_0000).value() == pow2(148),
        one() == 2 * pow2(148),
{
    lemma2_to64();
    assert(0x3f00_0000int / 0x80_0000 == 126 && 0x3f00_0000int % 0x80_0000 == 0);
    assert(single(0x3f00_0000).value() == single_value(0x3f00_0000));
    lemma_pow2_adds(23, 125);
    lemma_pow2_unfold(149);
}

/// What overlapping windows sum to lies from one half to one.
proof fn lemma_overlap<K: Fn(Op, Width, u64, u64) -> u64>(c: &Calc<K>, p: u64, w: u64)
    requires
        rounds(c),
        waves_stay_in_range(c),
        p <= 0x1000_0000_0000_0000,
        w >= 1,
    ensures
        overlap(c, p, w).finite(),
        pow2(148) <= overlap(c, p, w).value() <= one(),
{
    let u = one();
    lemma_ones();
    lemma_half();
    lemma_angle(c, p, w);
    let x = single(0x40c9_0fdb).mul(c, F32::of_count(c, p)).div(c, F32::of_count(c, w)).cos(c);
    lemma_wave(c, single(0x40c9_0fdb).mul(c, F32::of_count(c, p)).div(c, F32::of_count(c, w)));
    lemma_under(c, x, x, 1, 149);
    let q = x.mul(c, x);
    assert(q.value() >= 0) by {
        lemma_square(c, x);
    }
    let unit = single(0x3f80_0000);
    lemma_little(1, 149, 1);
    assert(reached(unit.value() + q.value(), 1));
    lemma_add(c, unit, q);
    let s = unit.add(c, q);
    lemma_at_least(s, unit.value() + q.value(), 1, unit);
    lemma_cap(s, unit.value() + q.value(), 1, 2, 149);
    let (half, n) = (single(0x3f00_0000), single(0x3f00_0000).value() * s.value());
    assert(half.value() * u <= n <= u * u) by (nonlinear_arith)
        requires
            n == half.value() * s.value(),
            u <= s.value() <= 2 * u,
            u == 2 * half.value(),
            u > 0,
    ;
    lemma_little(1, 149, u);
    assert(1 * pow2(149) * u == u * u);
    assert(half.value() * u >= 0) by (nonlinear_arith)
        requires
            half.value() >= 0,
            u > 0,
    ;
    assert(reached(n, u));
    lemma_mul(c, half, s);
    lemma_at_least(half.mul(c, s), n, u, half);
    lemma_at_most(half.mul(c, s), n, u, unit);
}

// ------------------------------------------------------------------ segments

/// Inputs no larger than `a` come out of a transform no more than a quarter larger than
/// their sum can be.
pub open spec fn calm(a: int, slack: int, bits: nat) -> bool {
    &&& moderate(a, slack, bits)
    &&& 8 * slack <= one()
    &&& 8 * ((bits * (bits + 1)) * stage_slack(a, slack)) <= a * one()
}

proof fn lemma_calm_size(v: Cx, sum: Cx, a: int, slack: int, bits: nat)
    requires
        calm(a, slack, bits),
        within(sum, pow2(bits) * (a * (one() + slack))),
        within(v.scaled(one()).less(sum), off(a, slack, bits)),
    ensures
        within(v.scaled(4), 5 * (pow2(bits) * a)),
{
    let (u, n) = (one(), pow2(bits) as int);
    lemma_pow2_pos(149);
    lemma_pow2_pos(bits);
    let hh = stage_slack(a, slack);
    let (e, b) = (off(a, slack, bits), n * (a * (u + slack)));
    lemma_sum_size(v.scaled(u).less(sum), e, sum, b);
    assert(v.scaled(u).less(sum).plus(sum) == v.scaled(u));
    assert(8 * e <= n * (a * u)) by (nonlinear_arith)
        requires
            e == (bits * (bits + 1)) * (n * hh),
            8 * ((bits * (bits + 1)) * hh) <= a * u,
            n >= 0,
    {
        assert(e == n * ((bits * (bits + 1)) * hh));
    }
    assert(8 * b <= 9 * (n * (a * u))) by (nonlinear_arith)
        requires
            b == n * (a * (u + slack)),
            8 * slack <= u,
            a >= 0,
            n >= 0,
    {
        assert(8 * (a * (u + slack)) <= 9 * (a * u)) by (nonlinear_arith)
            requires
                8 * slack <= u,
                a >= 0,
        ;
        assert(n * (8 * (a * (u + slack))) <= n * (9 * (a * u)));
    }
    let most = 5 * (n * a);
    assert((e + b) * 4 <= most * u && most >= 0) by (nonlinear_arith)
        requires
            8 * e <= n * (a * u),
            8 * b <= 9 * (n * (a * u)),
            most == 5 * (n * a),
            n >= 0,
            a >= 0,
    ;
    lemma_scaled_within(v.scaled(u), e + b, 4);
    lemma_scaled_twice(v, u, 4);
    lemma_scaled_twice(v, 4, u);
    assert(v.scaled(u).scaled(4) == v.scaled(4).scaled(u));
    lemma_wider(v.scaled(4).scaled(u), (e + b) * 4, most * u);
    lemma_unscaled_within(v.scaled(4), most, u);
}

/// What the engine's sines, cosines and roots are taken to be: `root` and `slack` speak of
/// windows of 2^bits samples.
pub open spec fn turns_well<K: Fn(Op, Width, u64, u64) -> u64>(c: &Calc<K>, root: spec_fn(int) -> Cx, bits: nat, slack: int) -> bool {
    &&& waves_stay_in_range(c)
    &&& roots_of_unity(root, bits, slack)
    &&& twiddles_follow(c, root, bits, slack)
    &&& calm(pow2(132) as int, slack, bits)
    &&& calm((30 * pow2(141)) as int, slack, bits)
}

/// The spectrum of a window of values that are no larger than 2^-17.
proof fn lemma_spectrum<K: Fn(Op, Width, u64, u64) -> u64>(
    c: &Calc<K>,
    d: Seq<Cpx>,
    root: spec_fn(int) -> Cx,
    bits: nat,
    slack: int,
    k: int,
)
    requires
        rounds(c),
        bits <= 13,
        turns_well(c, root, bits, slack),
        d.len() == pow2(bits),
        forall|i: int| 0 <= i < d.len() ==> numeric(#[trigger] d[i]) && within(val(d[i]), pow2(132) as int),
        0 <= k < d.len(),
    ensures
        transformed(c, d, bits, false).len() == d.len(),
        numeric(transformed(c, d, bits, false)[k]),
        within(val(transformed(c, d, bits, false)[k]), (20 * pow2(141)) as int),
{
    let a = pow2(132) as int;
    let n = pow2(bits) as int;
    lemma2_to64();
    lemma_stages_len(c, reordered(d, bits), bits, false);
    assert(reversed(0, 0) == 0 && 0 * n == 0);
    lemma_level(c, d, root, bits, slack, a, false, bits, 0, k);
    let x = values(d);
    lemma_nought_within(a);
    assert forall|i: int| within(#[trigger] x(i), a) by {}
    lemma_level_size(x, root, bits, slack, 0, 1, -1, k, n, a);
    let v = val(transformed(c, d, bits, false)[k]);
    lemma_calm_size(v, level(x, root, 0, 1, -1, k, n), a, slack, bits);
    if bits < 13 {
        lemma_pow2_strictly_increases(bits, 13);
    }
    lemma_pow2_adds(9, 132);
    lemma_pow2_pos(132);
    assert(5 * (n * a) <= 80 * (0x200 * a)) by (nonlinear_arith)
        requires
            n <= 0x2000,
            a >= 0,
    ;
    let y = pow2(141) as int;
    lemma_wider(v.scaled(4), 5 * (n * a), (20 * y) * 4);
    lemma_unscaled_within(v, 20 * y, 4);
}

/// The magnitude of a coefficient that is no larger than 20 * 2^-8.
#[verifier::rlimit(40)]
proof fn lemma_magnitude<K: Fn(Op, Width, u64, u64) -> u64>(c: &Calc<K>, z: Cpx)
    requires
        rounds(c),
        numeric(z),
        within(val(z), (20 * pow2(141)) as int),
    ensures
        magnitude(c, z).finite(),
        0 <= magnitude(c, z).value() <= 21 * pow2(141),
{
    let u = one();
    let y = pow2(141) as int;
    lemma_ones();
    lemma_parts(val(z), 20 * y);
    let (a, b) = (z.re.value(), z.im.value());
    let (aa, bb) = (a * a, b * b);
    lemma_pow2_adds(8, 141);
    lemma_pow2_adds(141, 141);
    lemma_pow2_pos(141);
    lemma2_to64();
    let yy = y * y;
    assert(aa >= 0 && bb >= 0 && aa + bb <= 400 * yy) by (nonlinear_arith)
        requires
            aa == a * a,
            bb == b * b,
            a * a + b * b <= (20 * y) * (20 * y),
            yy == y * y,
    ;
    assert(u * u == 0x1_0000 * yy) by (nonlinear_arith)
        requires
            u == 0x100 * y,
            yy == y * y,
    ;
    lemma_reached(aa, u);
    lemma_reached(bb, u);
    lemma_mul(c, z.re, z.re);
    lemma_mul(c, z.im, z.im);
    let (p, q) = (z.re.mul(c, z.re), z.im.mul(c, z.im));
    lemma_near(p, aa, u);
    lemma_near(q, bb, u);
    assert(0 * u == 0);
    lemma_at_least(p, aa, u, single(0));
    lemma_at_least(q, bb, u, single(0));
    lemma_pow2_strictly_increases(45, 133);
    lemma_pow2_adds(13, 32);
    lemma_pow2_adds(133, 149);
    assert(0x2000_0000_0000 * u <= yy) by (nonlinear_arith)
        requires
            0x2000_0000_0000 <= pow2(133),
            yy == pow2(133) * u,
            u > 0,
    ;
    let (pu, qu) = (p.value() * u, q.value() * u);
    assert(pu + qu <= 401 * yy);
    let s = p.value() + q.value();
    assert(s * u == pu + qu) by (nonlinear_arith)
        requires
            s == p.value() + q.value(),
            pu == p.value() * u,
            qu == q.value() * u,
    ;
    assert(s <= u) by (nonlinear_arith)
        requires
            s * u <= 401 * yy,
            u * u == 0x1_0000 * yy,
            yy >= 0,
            u > 0,
    ;
    lemma_reached(s, 1);
    lemma_add(c, p, q);
    let m = p.add(c, q);
    lemma_near(m, s, 1);
    lemma_at_least(m, s, 1, single(0));
    assert(0x40_0000 * (m.value() - s) <= s + 0x2000_0000_0000);
    assert(m.value() * u <= 441 * yy) by (nonlinear_arith)
        requires
            0x40_0000 * (m.value() - s) <= s + 0x2000_0000_0000,
            s * u <= 401 * yy,
            0x2000_0000_0000 * u <= yy,
            yy >= 0,
            u > 0,
    {
        assert((0x40_0000 * (m.value() - s)) * u <= (s + 0x2000_0000_0000) * u);
        assert(0x40_0000 * (m.value() * u) <= 0x40_0001 * (s * u) + 0x2000_0000_0000 * u);
    }
    lemma_grid(21, 142);
    let top = grid(21, 142);
    assert((21 * y) * (21 * y) == 441 * yy) by (nonlinear_arith)
        requires
            yy == y * y,
    ;
    lemma_root(c, m, top);
}

/// A coefficient without phase is no larger than 30 * 2^-8.
proof fn lemma_phaseless<K: Fn(Op, Width, u64, u64) -> u64>(c: &Calc<K>, z: Cpx)
    requires
        rounds(c),
        numeric(z),
        within(val(z), (20 * pow2(141)) as int),
    ensures
        numeric(phaseless(c, z)),
        within(val(phaseless(c, z)), (30 * pow2(141)) as int),
{
    lemma_pow2_pos(141);
    lemma_magnitude(c, z);
    lemma_fits(phaseless(c, z));
}

/// A coefficient with another phase is no larger than 30 * 2^-8.
#[verifier::rlimit(40)]
proof fn lemma_rephased<K: Fn(Op, Width, u64, u64) -> u64>(c: &Calc<K>, z: Cpx, ph: F32)
    requires
        rounds(c),
        waves_stay_in_range(c),
        numeric(z),
        within(val(z), (20 * pow2(141)) as int),
        ph.finite(),
    ensures
        numeric(rephased(c, z, ph)),
        within(val(rephased(c, z, ph)), (30 * pow2(141)) as int),
{
    lemma_pow2_pos(141);
    lemma_magnitude(c, z);
    let m = magnitude(c, z);
    lemma_wave(c, ph);
    lemma_under(c, m, ph.cos(c), 21, 141);
    lemma_under(c, m, ph.sin(c), 21, 141);
    lemma_fits(rephased(c, z, ph));
}

/// The mirror image of a coefficient is as large as it.
proof fn lemma_conjugate(w: Cpx, b: int)
    requires
        numeric(w),
        within(val(w), b),
    ensures
        numeric(conjugate(w)),
        within(val(conjugate(w)), b),
{
    assert(w.im.minus().mag() == w.im.mag());
    assert(w.im.minus().value() == -w.im.value());
    let y = w.im.value();
    assert((-y) * (-y) == y * y) by (nonlinear_arith);
}

/// Parts no larger than 21 * 2^-8 make a number no larger than 30 * 2^-8.
proof fn lemma_fits(w: Cpx)
    requires
        apart(w.re.value(), 0) <= 21 * pow2(141),
        apart(w.im.value(), 0) <= 21 * pow2(141),
    ensures
        within(val(w), (30 * pow2(141)) as int),
{
    lemma_pow2_pos(141);
    lemma_squares_fit(w.re.value(), w.im.value(), pow2(141) as int);
}

proof fn lemma_squares_fit(a: int, b: int, y: int)
    by (nonlinear_arith)
    requires
        -(21 * y) <= a <= 21 * y,
        -(21 * y) <= b <= 21 * y,
        y > 0,
    ensures
        a * a + b * b <= (30 * y) * (30 * y),
{
    assert(a * a <= 441 * (y * y));
    assert(b * b <= 441 * (y * y));
}

/// Fresh phases leave coefficients no larger than 30 * 2^-8.
#[verifier::rlimit(40)]
proof fn lemma_scrambled<K: Fn(Op, Width, u64, u64) -> u64>(c: &Calc<K>, z: Seq<Cpx>, seg: u64, k: int)
    requires
        rounds(c),
        waves_stay_in_range(c),
        forall|j: int| 0 <= j < z.len() ==> numeric(#[trigger] z[j]) && within(val(z[j]), (20 * pow2(141)) as int),
        0 <= k < z.len(),
    ensures
        numeric(scrambled(c, z, seg)[k]),
        within(val(scrambled(c, z, seg)[k]), (30 * pow2(141)) as int),
{
    let n = z.len() as int;
    let j = if k <= n / 2 {
        k
    } else {
        n - k
    };
    assert(numeric(z[j]));
    let ph = segment_phase(c, seg, j);
    lemma_phase(c, seg, j);
    lemma_phaseless(c, z[j]);
    lemma_rephased(c, z[j], ph);
    lemma_conjugate(rephased(c, z[j], ph), (30 * pow2(141)) as int);
}

/// Phases are numbers.
proof fn lemma_phase<K: Fn(Op, Width, u64, u64) -> u64>(c: &Calc<K>, seg: u64, k: int)
    requires
        rounds(c),
    ensures
        segment_phase(c, seg, k).finite(),
{
    let u = one();
    lemma_ones();
    let x = drawn_unit(stirred_by(seeded(0x9A75_57E7u64 ^ seg), (k - 1) as nat));
    law_unit_draws_stay_in_range(stirred_by(seeded(0x9A75_57E7u64 ^ seg), (k - 1) as nat));
    law_single_order_is_numeric(single(0), x);
    law_single_order_is_numeric(x, single(0x3f80_0000));
    lemma2_to64();
    let (two, pi) = (single(0x4000_0000), single(0x4049_0fdb));
    assert(0x4000_0000int / 0x80_0000 == 128 && 0x4000_0000int % 0x80_0000 == 0);
    assert(0x4049_0fdbint / 0x80_0000 == 128 && 0x4049_0fdbint % 0x80_0000 == 0x49_0fdb);
    assert(two.value() == single_value(0x4000_0000) && pi.value() == single_value(0x4049_0fdb));
    lemma_pow2_adds(22, 127);
    lemma_pow2_pos(127);
    let t = pow2(127) as int;
    assert(0 <= two.value() <= 4 * u && 0 <= pi.value() <= 4 * u) by (nonlinear_arith)
        requires
            two.value() == 0x80_0000 * t,
            pi.value() == 0xc9_0fdb * t,
            u == 0x40_0000 * t,
            t > 0,
    ;
    let n = x.value() * two.value();
    assert(0 <= n <= (4 * u) * u) by (nonlinear_arith)
        requires
            n == x.value() * two.value(),
            0 <= x.value() <= u,
            0 <= two.value() <= 4 * u,
    ;
    lemma_little(4, 149, u);
    assert(reached(n, u));
    lemma_mul(c, x, two);
    let a = x.mul(c, two);
    lemma_cap(a, n, u, 4, 149);
    let m = a.value() * pi.value();
    assert(apart(m, 0) <= (16 * u) * u) by (nonlinear_arith)
        requires
            m == a.value() * pi.value(),
            -(4 * u) <= a.value() <= 4 * u,
            0 <= pi.value() <= 4 * u,
    ;
    lemma_little(16, 149, u);
    assert(reached(m, u));
    lemma_mul(c, a, pi);
}

/// A number as large as the transform's, over 2^bits.
proof fn lemma_shared_out<K: Fn(Op, Width, u64, u64) -> u64>(c: &Calc<K>, v: F32, inv: F32, n: int)
    requires
        rounds(c),
        v.finite(),
        inv.finite(),
        n > 0,
        inv.value() * n == one(),
        0 <= inv.value(),
        4 * apart(v.value(), 0) <= 5 * (n * (30 * pow2(141))),
    ensures
        v.mul(c, inv).finite(),
        apart(v.mul(c, inv).value(), 0) <= 38 * pow2(141),
{
    let (u, y) = (one(), pow2(141) as int);
    lemma_pow2_pos(149);
    lemma_pow2_pos(141);
    let (a, i) = (v.value(), inv.value());
    let m = a * i;
    assert(apart(m, 0) <= (38 * y) * u) by (nonlinear_arith)
        requires
            m == a * i,
            i * n == u,
            i >= 0,
            n > 0,
            4 * a <= 5 * (n * (30 * y)),
            -(4 * a) <= 5 * (n * (30 * y)),
            y > 0,
            u > 0,
    {
        assert((4 * a) * i <= (5 * (n * (30 * y))) * i);
        assert((-(4 * a)) * i <= (5 * (n * (30 * y))) * i);
        assert((5 * (n * (30 * y))) * i == (150 * y) * (i * n));
        assert((150 * y) * u <= (152 * y) * u);
        assert((152 * y) * u == 4 * ((38 * y) * u));
    }
    lemma_little(38, 141, u);
    assert(reached(m, u));
    lemma_mul(c, v, inv);
    lemma_cap(v.mul(c, inv), m, u, 38, 141);
}

/// What a segment of a soft clip gives.
#[verifier::rlimit(40)]
proof fn lemma_segment<K: Fn(Op, Width, u64, u64) -> u64>(
    c: &Calc<K>,
    input: Seq<F32>,
    root: spec_fn(int) -> Cx,
    bits: nat,
    slack: int,
    at: int,
    seg: u64,
    i: int,
)
    requires
        rounds(c),
        bits <= 13,
        turns_well(c, root, bits, slack),
        forall|j: int| 0 <= j < input.len() ==> (#[trigger] input[j]).finite() && apart(input[j].value(), 0) <= pow2(132),
        at >= 0,
        0 <= i < pow2(bits),
    ensures
        segment_out(c, input, at, bits, seg)[i].finite(),
        apart(segment_out(c, input, at, bits, seg)[i].value(), 0) <= 38 * pow2(141),
{
    let (w, a) = (pow2(bits), pow2(132) as int);
    let n = w as int;
    lemma_ones();
    lemma2_to64();
    lemma_pow2_pos(bits);
    lemma_pow2_pos(132);
    if bits < 13 {
        lemma_pow2_strictly_increases(bits, 13);
    }
    let d = paired(segment_in(c, input, at, w), Seq::new(w, |i: int| single(0)));
    assert forall|j: int| 0 <= j < d.len() implies numeric(#[trigger] d[j]) && within(val(d[j]), a) by {
        let x = if at + j < input.len() {
            input[at + j]
        } else {
            single(0)
        };
        lemma_hann(c, j as u64, w as u64);
        lemma_under(c, x, hann_of(c, j as u64, w as u64), 1, 132);
        let s = d[j].re.value();
        assert(s * s + 0 * 0 <= a * a) by (nonlinear_arith)
            requires
                -a <= s <= a,
        ;
    }
    let z = transformed(c, d, bits, false);
    assert forall|j: int| 0 <= j < n implies numeric(#[trigger] z[j]) && within(val(z[j]), (20 * pow2(141)) as int) by {
        lemma_spectrum(c, d, root, bits, slack, j);
    }
    lemma_spectrum(c, d, root, bits, slack, 0);
    let f = scrambled(c, z, seg);
    let b = (30 * pow2(141)) as int;
    assert forall|j: int| 0 <= j < f.len() implies numeric(#[trigger] f[j]) && within(val(f[j]), b) by {
        lemma_scrambled(c, z, seg, j);
    }
    lemma_stages_len(c, reordered(f, bits), bits, true);
    assert(reversed(0, 0) == 0 && 0 * n == 0);
    lemma_level(c, f, root, bits, slack, b, true, bits, 0, i);
    let x = values(f);
    lemma_pow2_pos(141);
    lemma_nought_within(b);
    assert forall|j: int| within(#[trigger] x(j), b) by {}
    lemma_level_size(x, root, bits, slack, 0, 1, 1, i, n, b);
    let v = stages(c, reordered(f, bits), bits, true)[i];
    lemma_calm_size(val(v), level(x, root, 0, 1, 1, i, n), b, slack, bits);
    lemma_parts(val(v).scaled(4), 5 * (n * b));
    lemma_share(c, bits);
    lemma_shared_out(c, v.re, single(0x3f80_0000).div(c, F32::of_count(c, w as u64)), n);
}

/// Sample `p` of the wash of a soft clip.
#[verifier::rlimit(40)]
proof fn lemma_washed<K: Fn(Op, Width, u64, u64) -> u64>(
    c: &Calc<K>,
    input: Seq<F32>,
    factor: F64,
    root: spec_fn(int) -> Cx,
    bits: nat,
    slack: int,
    p: int,
)
    requires
        rounds(c),
        8 <= bits <= 13,
        turns_well(c, root, bits, slack),
        forall|j: int| 0 <= j < input.len() ==> (#[trigger] input[j]).finite() && apart(input[j].value(), 0) <= pow2(132),
        0 <= p <= 0x200_0000_0000_0000,
    ensures
        ({
            let w = pow2(bits);
            let s = washed(c, input, factor, bits, p, p / (w as int / 2) + 1).div(c, overlap(c, p as u64, w as u64));
            s.finite() && apart(s.value(), 0) <= one()
        }),
{
    let (w, u, y) = (pow2(bits) as int, one(), pow2(141) as int);
    let half = w / 2;
    lemma_ones();
    lemma2_to64();
    lemma_pow2_pos(141);
    lemma_pow2_unfold(bits);
    if bits > 8 {
        lemma_pow2_strictly_increases(8, bits);
    }
    if bits < 13 {
        lemma_pow2_strictly_increases(bits, 13);
    }
    let s = p / half;
    lemma_segment_reach(p, s, half);
    assert(s >= 0) by (nonlinear_arith)
        requires
            s == p / half,
            p >= 0,
            half > 0,
    ;
    if s >= 1 {
        lemma_segment_reach(p, s - 1, half);
        lemma_one_share(c, input, factor, root, bits, slack, s - 1, p);
    }
    lemma_one_share(c, input, factor, root, bits, slack, s, p);
    lemma_little(76, 141, 1);
    let zero = single(0);
    let first = if s >= 1 {
        zero.add(c, share(c, input, factor, bits, s - 1, p))
    } else {
        zero
    };
    if s >= 1 {
        let x = share(c, input, factor, bits, s - 1, p);
        assert(reached(zero.value() + x.value(), 1));
        lemma_add(c, zero, x);
        lemma_cap(first, zero.value() + x.value(), 1, 38, 141);
    }
    let x = share(c, input, factor, bits, s, p);
    assert(reached(first.value() + x.value(), 1));
    lemma_add(c, first, x);
    let sum = first.add(c, x);
    lemma_cap(sum, first.value() + x.value(), 1, 76, 141);
    assert(sum == washed(c, input, factor, bits, p, s + 1));
    lemma_overlap(c, p as u64, w as u64);
    lemma_half();
    let o = overlap(c, p as u64, w as u64).value();
    assert(apart(sum.value() * u, 0) <= (152 * y) * o) by (nonlinear_arith)
        requires
            -(76 * y) <= sum.value() <= 76 * y,
            2 * o >= u,
            u > 0,
            y > 0,
    {
        assert((76 * y) * u <= (76 * y) * (2 * o));
        assert(sum.value() * u <= (76 * y) * u);
        assert(-(sum.value() * u) <= (76 * y) * u);
        assert((76 * y) * (2 * o) == (152 * y) * o);
    }
    lemma_little(152, 141, o);
    assert(reached(sum.value() * u, o));
    lemma_div(c, sum, overlap(c, p as u64, w as u64));
    lemma_cap(sum.div(c, overlap(c, p as u64, w as u64)), sum.value() * u, o, 152, 141);
    lemma_pow2_adds(8, 141);
}

proof fn lemma_one_share<K: Fn(Op, Width, u64, u64) -> u64>(
    c: &Calc<K>,
    input: Seq<F32>,
    factor: F64,
    root: spec_fn(int) -> Cx,
    bits: nat,
    slack: int,
    seg: int,
    p: int,
)
    requires
        rounds(c),
        1 <= bits <= 13,
        turns_well(c, root, bits, slack),
        forall|j: int| 0 <= j < input.len() ==> (#[trigger] input[j]).finite() && apart(input[j].value(), 0) <= pow2(132),
        seg * (pow2(bits) as int / 2) <= p < seg * (pow2(bits) as int / 2) + pow2(bits),
    ensures
        share(c, input, factor, bits, seg, p).finite(),
        apart(share(c, input, factor, bits, seg, p).value(), 0) <= 38 * pow2(141),
{
    let w = pow2(bits) as int;
    lemma_ones();
    lemma2_to64();
    lemma_pow2_pos(bits);
    if bits < 13 {
        lemma_pow2_strictly_increases(bits, 13);
    }
    let at = segment_at(c, seg as u64, (w / 2) as u64, factor);
    let i = p - seg * (w / 2);
    lemma_segment(c, input, root, bits, slack, at as int, seg as u64, i);
    lemma_hann(c, i as u64, w as u64);
    lemma_under(c, segment_out(c, input, at as int, bits, seg as u64)[i], hann_of(c, i as u64, w as u64), 38, 141);
}

/// A stretched clip of finite samples that is next to silent, and so is not brought to a
/// level, stays within -1..=1. The clip has up to 2^23 samples; `root` and `slack` say how
/// well its window turns.
pub proof fn law_soft_clips_stay_in_range<K: Fn(Op, Width, u64, u64) -> u64>(
    c: &Calc<K>,
    input: Seq<F32>,
    factor: F32,
    rate: u32,
    root: spec_fn(int) -> Cx,
    slack: int,
    i: int,
)
    requires
        rounds(c),
        infinity_stays(c),
        turns_well(c, root, window_bits(input.len() as int, 13), slack),
        1 <= input.len() <= 0x80_0000,
        forall|j: int| 0 <= j < input.len() ==> (#[trigger] input[j]).finite(),
        !single(0x3089_705f).lt(rms_of(c, input)),
        0 <= i < stretched(c, input, factor, rate).len() <= 0x200_0000_0000_0000,
    ensures
        single(0xbf80_0000).at_most(stretched(c, input, factor, rate)[i]),
        stretched(c, input, factor, rate)[i].at_most(single(0x3f80_0000)),
{
    let f = clamp_factor(factor).to_f64(c);
    let bits = window_bits(input.len() as int, 13);
    lemma2_to64();
    lemma_window_bits(input.len() as int, 13);
    lemma_pow2_adds(92, 23);
    let n = input.len() as int;
    assert(pow2(92) * n <= pow2(92) * pow2(23)) by (nonlinear_arith)
        requires
            n <= pow2(23),
    ;
    assert forall|j: int| 0 <= j < input.len() implies (#[trigger] input[j]).finite() && apart(input[j].value(), 0)
        <= pow2(132) by {
        lemma_soft(c, input, j, 132);
    }
    lemma_washed(c, input, f, root, bits, slack, i);
    lemma_in_range(wash(c, input, f, rate)[i]);
}

proof fn lemma_window_bits(len: int, bits: nat)
    requires
        8 <= bits <= 13,
    ensures
        8 <= window_bits(len, bits) <= bits,
    decreases bits,
{
    if bits > 8 && pow2(bits) > len {
        lemma_window_bits(len, (bits - 1) as nat);
    }
}

/// A stretched clip of finite samples stays within -1..=1 whether it is brought to a level
/// or not, where its wash is finite.
pub proof fn law_stretched_samples_stay_in_range<K: Fn(Op, Width, u64, u64) -> u64>(
    c: &Calc<K>,
    input: Seq<F32>,
    factor: F32,
    rate: u32,
    root: spec_fn(int) -> Cx,
    slack: int,
    i: int,
)
    requires
        rounds(c),
        infinity_stays(c),
        turns_well(c, root, window_bits(input.len() as int, 13), slack),
        1 <= input.len() <= 0x80_0000,
        forall|j: int| 0 <= j < input.len() ==> (#[trigger] input[j]).finite(),
        forall|j: int|
            0 <= j < stretched(c, input, factor, rate).len() ==> (#[trigger] wash(
                c,
                input,
                clamp_factor(factor).to_f64(c),
                rate,
            )[j]).finite(),
        0 <= i < stretched(c, input, factor, rate).len() <= 0x200_0000_0000_0000,
    ensures
        ({
            let s = stretched(c, input, factor, rate)[i];
            s.nan() || (single(0xbf80_0000).at_most(s) && s.at_most(single(0x3f80_0000)))
        }),
{
    let out = wash(c, input, clamp_factor(factor).to_f64(c), rate);
    if !single(0x3089_705f).lt(rms_of(c, input)) {
        law_soft_clips_stay_in_range(c, input, factor, rate, root, slack, i);
    } else if !single(0x3089_705f).lt(rms_of(c, out)) {
        law_soft_washes_stay_in_range(c, input, out, i);
    } else {
        law_levelled_samples_stay_in_range(c, input, out, i);
    }
}

} // verus!
