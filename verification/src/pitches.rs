//! How a pitch is found, with arithmetic that rounds to nearest.
use crate::calc::{Calc, Op, Width};
use crate::dsp::{best_correlation, climbed, correlation, first_at_least, lagged_sum, period, pitch, pitch_lags, refined, square_sum};
use crate::echoes::lemma_floor_size;
use crate::num::{single, F32};
use crate::reals::{
    about, amount, lemma_about_less, lemma_about_over, lemma_about_plus, lemma_about_times, lemma_compared, lemma_constant, lemma_constants, lemma_greater,
    lemma_minus, lemma_over, lemma_quotient, lemma_root, lemma_times, lemma_unsigned, speck,
};
use crate::rounding::rounds;
use crate::spread::lemma_single_counts;
use vstd::arithmetic::power2::{lemma2_to64, lemma_pow2_adds, pow2};
use vstd::prelude::*;

verus! {

/// The sums over a sound and over its copy one period later are the same, sample by sample.
pub proof fn law_periodic_sounds_repeat<K: Fn(Op, Width, u64, u64) -> u64>(c: &Calc<K>, x: Seq<F32>, lag: int, n: int)
    requires
        0 <= n,
        0 <= lag,
        lag + n <= x.len(),
        forall|i: int| 0 <= i < n ==> #[trigger] x[i + lag] == x[i],
    ensures
        lagged_sum(c, x, lag, n) == square_sum(c, x, 0, n),
        square_sum(c, x, lag, n) == square_sum(c, x, 0, n),
    decreases n,
{
    if n > 0 {
        law_periodic_sounds_repeat(c, x, lag, n - 1);
        assert(x[(n - 1) + lag] == x[n - 1]);
        assert(x[lag + n - 1] == x[n - 1]);
        assert(x[0 + n - 1] == x[n - 1]);
    }
}

/// The root of a square is the number again, but for rounding.
proof fn lemma_root_of_square<K: Fn(Op, Width, u64, u64) -> u64>(c: &Calc<K>, e: F32)
    requires
        rounds(c),
        e.finite(),
        1real / 0x10_0000real <= amount(e) <= 0x10_0000real,
    ensures
        e.mul(c, e).sqrt(c).finite(),
        amount(e) * (1real - 1real / 0x4000real) <= amount(e.mul(c, e).sqrt(c)) <= amount(e) * (1real + 1real / 0x4000real),
{
    lemma2_to64();
    let a = amount(e);
    let (lo, hi) = (single(0x3f7f_ff00), single(0x3f80_0100));
    lemma_constant(0x3f7f_ff00, 0xff_ff00, 126);
    lemma_constant(0x3f80_0100, 0x80_0100, 127);
    assert(pow2(24) as real == 0x100_0000real);
    assert(pow2(23) as real == 0x80_0000real);
    assert(amount(lo) * 0x100_0000real == 0xff_ff00real);
    assert(amount(hi) * 0x80_0000real == 0x80_0100real);
    let (lr, hr) = (amount(lo), amount(hi));
    assert(0real <= a * a <= 0x100_0000_0000real && 0real <= a * lr <= 0x20_0000real && 0real <= a * hr <= 0x20_0000real && a * a >= 1real / 0x100_0000_0000real)
        by (nonlinear_arith)
        requires
            1real / 0x10_0000real <= a <= 0x10_0000real,
            0real < lr < 1real,
            1real < hr < 2real,
    ;
    lemma_times(c, e, e);
    lemma_times(c, e, lo);
    lemma_times(c, e, hi);
    let (s, y, z) = (e.mul(c, e), e.mul(c, lo), e.mul(c, hi));
    let (sr, yr, zr) = (amount(s), amount(y), amount(z));
    assert(speck() == 1real / 0x1_0000_0000_0000_0000real);
    let t = 1real / 0x20_0000real;
    assert(a * a * (1real - t) <= sr <= a * a * (1real + t)) by (nonlinear_arith)
        requires
            0x40_0000real * (sr - a * a) <= a * a + 1real / 0x1_0000_0000_0000_0000real,
            0x40_0000real * (a * a - sr) <= a * a + 1real / 0x1_0000_0000_0000_0000real,
            a * a >= 1real / 0x100_0000_0000real,
            t == 1real / 0x20_0000real,
    ;
    assert(a * (lr - t) <= yr <= a * (lr + t)) by (nonlinear_arith)
        requires
            0x40_0000real * (yr - a * lr) <= a * lr + 1real / 0x1_0000_0000_0000_0000real,
            0x40_0000real * (a * lr - yr) <= a * lr + 1real / 0x1_0000_0000_0000_0000real,
            a >= 1real / 0x10_0000real,
            0real < lr < 1real,
            t == 1real / 0x20_0000real,
    ;
    assert(a * (hr - t) <= zr <= a * (hr + t)) by (nonlinear_arith)
        requires
            0x40_0000real * (zr - a * hr) <= a * hr + 1real / 0x1_0000_0000_0000_0000real,
            0x40_0000real * (a * hr - zr) <= a * hr + 1real / 0x1_0000_0000_0000_0000real,
            a >= 1real / 0x10_0000real,
            1real < hr < 5real / 4real,
            t == 1real / 0x20_0000real,
    ;
    assert((lr + t) * (lr + t) <= 1real - t && 1real + t <= (hr - t) * (hr - t)) by (nonlinear_arith)
        requires
            lr * 0x100_0000real == 0xff_ff00real,
            hr * 0x80_0000real == 0x80_0100real,
            t == 1real / 0x20_0000real,
    ;
    assert(a * (lr - t) >= 0real && a * (hr - t) >= 0real) by (nonlinear_arith)
        requires
            a > 0real,
            lr - t >= 0real,
            hr - t >= 0real,
    ;
    assert(yr * yr <= sr) by (nonlinear_arith)
        requires
            0real <= yr <= a * (lr + t),
            a * a * (1real - t) <= sr,
            (lr + t) * (lr + t) <= 1real - t,
            lr + t >= 0real,
            a > 0real,
    ;
    assert(sr <= zr * zr) by (nonlinear_arith)
        requires
            a * (hr - t) <= zr,
            sr <= a * a * (1real + t),
            1real + t <= (hr - t) * (hr - t),
            hr - t >= 0real,
            a > 0real,
    ;
    lemma_root(c, s, y);
    lemma_root(c, s, z);
    assert(a * (1real - 1real / 0x4000real) <= a * (lr - t) && a * (hr + t) <= a * (1real + 1real / 0x4000real)) by (nonlinear_arith)
        requires
            a > 0real,
            1real - 1real / 0x4000real <= lr - t,
            hr + t <= 1real + 1real / 0x4000real,
    ;
}

/// A sound matches its copy one period later fully.
pub proof fn law_periods_match_fully<K: Fn(Op, Width, u64, u64) -> u64>(c: &Calc<K>, x: Seq<F32>, win: int, lag: int)
    requires
        rounds(c),
        0 <= win,
        0 <= lag,
        lag + win <= x.len(),
        forall|i: int| 0 <= i < win ==> #[trigger] x[i + lag] == x[i],
        square_sum(c, x, 0, win).finite(),
        1real / 0x10_0000real <= amount(square_sum(c, x, 0, win)) <= 0x10_0000real,
    ensures
        about(correlation(c, x, win, square_sum(c, x, 0, win), lag), 1real, 1real / 0x1000real),
{
    let e = square_sum(c, x, 0, win);
    law_periodic_sounds_repeat(c, x, lag, win);
    lemma_root_of_square(c, e);
    lemma_constants();
    let norm = e.mul(c, e).sqrt(c);
    let (a, n) = (amount(e), amount(norm));
    assert(n > 0real) by (nonlinear_arith)
        requires
            n >= a * (1real - 1real / 0x4000real),
            a > 0real,
    ;
    lemma_compared(norm, single(0));
    lemma_quotient(a, n);
    let q = a / n;
    assert(1real - 1real / 0x2000real <= q <= 1real + 1real / 0x2000real) by (nonlinear_arith)
        requires
            q * n == a,
            a * (1real - 1real / 0x4000real) <= n <= a * (1real + 1real / 0x4000real),
            a > 0real,
            n > 0real,
    ;
    lemma_over(c, e, norm);
    assert(speck() <= 1real);
}

/// The lags that are looked at are those of fifty to twelve hundred hertz, over a quarter of a
/// second.
pub proof fn law_lags_span_the_voices<K: Fn(Op, Width, u64, u64) -> u64>(c: &Calc<K>, sample_rate: u32)
    requires
        rounds(c),
        2400 <= sample_rate <= 0x4_0000,
    ensures
        ({
            let (win, min, max) = pitch_lags(c, F32::of_count(c, sample_rate as u64));
            let sr = sample_rate as real;
            &&& sr / 4real - 1real - 1real / 16real <= win as real <= sr / 4real + 1real / 16real
            &&& sr / 1200real - 1real - 1real / 16real <= min as real <= sr / 1200real + 1real / 16real
            &&& sr / 50real - 1real - 1real / 16real <= max as real <= sr / 50real + 1real / 16real
        }),
{
    lemma_constants();
    lemma2_to64();
    lemma_single_counts(c, sample_rate as u64);
    let (n, sr) = (F32::of_count(c, sample_rate as u64), sample_rate as real);
    let (quarter, high, low) = (single(0x3e80_0000), single(0x4496_0000), single(0x4248_0000));
    lemma_constant(0x3e80_0000, 0x80_0000, 125);
    lemma_constant(0x4496_0000, 0x96_0000, 137);
    lemma_constant(0x4248_0000, 0xc8_0000, 132);
    assert(pow2(25) as real == 0x200_0000real);
    assert(pow2(13) as real == 0x2000real);
    assert(pow2(18) as real == 0x4_0000real);
    assert(amount(quarter) * 0x200_0000real == 0x80_0000real);
    assert(amount(high) * 0x2000real == 0x96_0000real);
    assert(amount(low) * 0x4_0000real == 0xc8_0000real);
    lemma_about_times(c, n, sr, 0real, 0x4_0000real, quarter, 1real / 4real, 0real, 1real / 4real, 1real / 32real);
    assert(sr * (1real / 4real) == sr / 4real);
    lemma_about_over(c, n, sr, 0real, high, 1200real, 220real, 1real / 32real);
    lemma_about_over(c, n, sr, 0real, low, 50real, 5300real, 1real / 32real);
    lemma_greater(n.div(c, high), single(0x4000_0000));
    lemma_floor_size(c, n.mul(c, quarter));
    lemma_floor_size(c, n.div(c, high).max(single(0x4000_0000)));
    lemma_floor_size(c, n.div(c, low));
}

/// The best match is as good as any, and is one of them unless none is better than nothing.
pub proof fn law_the_best_match_is_the_best<K: Fn(Op, Width, u64, u64) -> u64>(c: &Calc<K>, x: Seq<F32>, win: int, energy: F32, min: int, max: int, lag: int)
    requires
        min <= lag < max,
        forall|k: int| min <= k < max ==> (#[trigger] correlation(c, x, win, energy, k)).finite(),
    ensures
        best_correlation(c, x, win, energy, min, max).finite(),
        amount(correlation(c, x, win, energy, lag)) <= amount(best_correlation(c, x, win, energy, min, max)),
        best_correlation(c, x, win, energy, min, max) == single(0) || exists|k: int|
            min <= k < max && best_correlation(c, x, win, energy, min, max) == #[trigger] correlation(c, x, win, energy, k),
    decreases max - min,
{
    lemma_constants();
    let b = best_correlation(c, x, win, energy, min, max - 1);
    let v = correlation(c, x, win, energy, max - 1);
    assert(v.finite());
    if max - 1 > min {
        if lag < max - 1 {
            law_the_best_match_is_the_best(c, x, win, energy, min, max - 1, lag);
        } else {
            law_the_best_match_is_the_best(c, x, win, energy, min, max - 1, min);
        }
        lemma_compared(b, v);
    } else {
        assert(b == single(0));
        lemma_compared(b, v);
    }
}

/// The period starts from the first lag that is nearly as good as the best, and is the top of
/// the slope that the lag is on.
pub proof fn law_periods_are_the_first_peak<K: Fn(Op, Width, u64, u64) -> u64>(c: &Calc<K>, corrs: Seq<F32>, best: F32, min: int) -> (first: int)
    requires
        rounds(c),
        best.finite() && 0real <= amount(best) <= 2real,
        period(c, corrs, best, min) is Some,
        forall|i: int| 0 <= i < corrs.len() ==> (#[trigger] corrs[i]).finite(),
    ensures
        ({
            let top = period(c, corrs, best, min)->Some_0 - min;
            let slack = 1real / 0x10_0000real;
            &&& amount(best) >= 1real / 2real
            &&& 0 <= first <= top < corrs.len()
            &&& amount(corrs[first]) >= amount(best) - 1real / 50real - slack
            &&& forall|i: int| 0 <= i < first ==> amount(#[trigger] corrs[i]) < amount(best) - 1real / 50real + slack
            &&& forall|i: int, j: int| first <= i < j <= top ==> amount(#[trigger] corrs[i]) < amount(#[trigger] corrs[j])
            &&& top + 1 < corrs.len() ==> amount(corrs[top + 1]) <= amount(corrs[top])
        }),
{
    let u = 1real / 0x40_0000real;
    lemma_constants();
    lemma2_to64();
    let part = single(0x3ca3_d70a);
    lemma_constant(0x3ca3_d70a, 0xa3_d70a, 121);
    assert(pow2(29) as real == 0x2000_0000real);
    assert(amount(part) * 0x2000_0000real == 0xa3_d70areal);
    assert(about(part, 1real / 50real, u / 8real));
    lemma_compared(best, single(0x3f00_0000));
    lemma_about_less(c, best, amount(best), 0real, part, 1real / 50real, u / 8real, 2real, 4real * u);
    let threshold = best.sub(c, part);
    lemma_first(corrs, threshold, 0);
    let first = first_at_least(corrs, threshold, 0);
    lemma_slope(corrs, first);
    lemma_compared(threshold, corrs[first]);
    assert forall|i: int| 0 <= i < first implies amount(#[trigger] corrs[i]) < amount(best) - 1real / 50real + 1real / 0x10_0000real by {
        lemma_compared(threshold, corrs[i]);
    }
    first
}

proof fn lemma_first(v: Seq<F32>, threshold: F32, i: int)
    requires
        0 <= i <= v.len(),
    ensures
        i <= first_at_least(v, threshold, i) <= v.len(),
        first_at_least(v, threshold, i) < v.len() ==> threshold.le(v[first_at_least(v, threshold, i)]),
        forall|j: int| i <= j < first_at_least(v, threshold, i) ==> !threshold.le(#[trigger] v[j]),
    decreases v.len() - i,
{
    if i < v.len() && !threshold.le(v[i]) {
        lemma_first(v, threshold, i + 1);
    }
}

proof fn lemma_slope(v: Seq<F32>, i: int)
    requires
        0 <= i < v.len(),
        forall|k: int| 0 <= k < v.len() ==> (#[trigger] v[k]).finite(),
    ensures
        i <= climbed(v, i) < v.len(),
        forall|a: int, b: int| i <= a < b <= climbed(v, i) ==> amount(#[trigger] v[a]) < amount(#[trigger] v[b]),
        climbed(v, i) + 1 < v.len() ==> amount(v[climbed(v, i) + 1]) <= amount(v[climbed(v, i)]),
    decreases v.len() - i,
{
    if i + 1 < v.len() {
        lemma_compared(v[i], v[i + 1]);
        if v[i].lt(v[i + 1]) {
            lemma_slope(v, i + 1);
            let top = climbed(v, i);
            assert forall|a: int, b: int| i <= a < b <= top implies amount(#[trigger] v[a]) < amount(#[trigger] v[b]) by {
                if a == i && b > i + 1 {
                    assert(amount(v[i + 1]) < amount(v[b]));
                }
            }
        }
    }
}

/// Whether dividing by a negative number gives what dividing with both signs turned round gives.
#[verifier::opaque]
pub open spec fn signs_cancel<K: Fn(Op, Width, u64, u64) -> u64>(c: &Calc<K>) -> bool {
    forall|a: F32, b: F32| a.finite() && b.finite() && b.value() < 0 ==> #[trigger] a.div(c, b) == a.minus().div(c, b.minus())
}

/// Where the parabola through three numbers has its top, next to the middle one.
#[verifier::rlimit(40)]
proof fn lemma_vertex<K: Fn(Op, Width, u64, u64) -> u64>(c: &Calc<K>, a: F32, b: F32, d: F32, p: real, q: real, r: real)
    requires
        rounds(c),
        signs_cancel(c),
        a.finite() && p == amount(a) && -0x100real <= p <= 0x100real,
        b.finite() && q == amount(b) && -0x100real <= q <= 0x100real,
        d.finite() && r == amount(d) && -0x100real <= r <= 0x100real,
        p - 2real * q + r <= -1real,
        p <= q,
        r <= q,
    ensures
        ({
            let denom = a.sub(c, single(0x4000_0000).mul(c, b)).add(c, d);
            let s = single(0x3f00_0000).mul(c, a.sub(c, d)).div(c, denom);
            let bend = p - 2real * q + r;
            &&& single(0x3089_705f).lt(denom.abs())
            &&& s.finite() && -2real <= amount(s) <= 2real
            &&& 1real / 24real * bend <= amount(s) * bend - (p - r) / 2real <= -1real / 24real * bend
        }),
{
    let u = 1real / 0x40_0000real;
    lemma_constants();
    lemma2_to64();
    let (half, two, tiny) = (single(0x3f00_0000), single(0x4000_0000), single(0x3089_705f));
    lemma_constant(0x3089_705f, 0x89_705f, 97);
    lemma_pow2_adds(32, 21);
    assert(pow2(53) as real == 0x20_0000_0000_0000real);
    assert(amount(tiny) * 0x20_0000_0000_0000real == 0x89_705freal);
    lemma_about_times(c, two, 2real, 0real, 2real, b, q, 0real, 0x100real, 600real * u);
    lemma_about_less(c, a, p, 0real, two.mul(c, b), 2real * q, 600real * u, 0x300real, 1400real * u);
    lemma_about_plus(c, a.sub(c, two.mul(c, b)), p - 2real * q, 1400real * u, d, r, 0real, 0x400real, 2500real * u);
    let denom = a.sub(c, two.mul(c, b)).add(c, d);
    let bend = p - 2real * q + r;
    lemma_unsigned(denom);
    lemma_compared(tiny, denom.abs());
    lemma_about_less(c, a, p, 0real, d, r, 0real, 0x200real, 520real * u);
    lemma_about_times(c, half, 1real / 2real, 0real, 1real / 2real, a.sub(c, d), p - r, 520real * u, 0x200real, 600real * u);
    let top = half.mul(c, a.sub(c, d));
    let tr = (p - r) / 2real;
    assert(1real / 2real * (p - r) == tr);
    lemma_minus(denom);
    lemma_minus(top);
    crate::reals::lemma_order(denom, F32 { bits: 0 });
    assert(crate::num::single_value(0) == 0);
    assert(top.div(c, denom) == top.minus().div(c, denom.minus())) by {
        reveal(signs_cancel);
    }
    lemma_part_of_bend(c, top.minus(), -tr, denom.minus(), -bend);
    let v = amount(top.div(c, denom));
    assert(v * (-bend) == -(v * bend)) by (nonlinear_arith);
}

/// A quotient by what a parabola bends.
proof fn lemma_part_of_bend<K: Fn(Op, Width, u64, u64) -> u64>(c: &Calc<K>, up: F32, ur: real, under: F32, br: real)
    requires
        rounds(c),
        about(up, ur, 600real / 0x40_0000real),
        about(under, br, 2500real / 0x40_0000real),
        br >= 1real,
        -br <= 2real * ur <= br,
    ensures
        up.div(c, under).finite(),
        -2real <= amount(up.div(c, under)) <= 2real,
        -1real / 24real * br <= amount(up.div(c, under)) * br - ur <= 1real / 24real * br,
{
    let u = 1real / 0x40_0000real;
    let y = amount(under);
    let lo = br - 2500real * u;
    let w = (2real * 1real + 1real) / 0x40_0000real;
    assert(w * lo + 600real * u <= (1real / 64real) * lo) by (nonlinear_arith)
        requires
            lo >= 9real / 10real,
            w == 3real / 0x40_0000real,
            u == 1real / 0x40_0000real,
    ;
    lemma_about_over(c, up, ur, 600real * u, under, lo, 1real, 1real / 64real);
    lemma_quotient(ur, y);
    let (v, s) = (ur / y, amount(up.div(c, under)));
    assert(-1real / 24real * br <= s * br - ur <= 1real / 24real * br) by (nonlinear_arith)
        requires
            v * y == ur,
            -1real / 64real <= s - v <= 1real / 64real,
            -1real <= v <= 1real,
            -2500real * u <= y - br <= 2500real * u,
            br >= 1real,
            u == 1real / 0x40_0000real,
    ;
}

/// A period between lags is where the parabola through the three matches around it has its top:
/// its slope is zero there.
pub proof fn law_periods_are_refined_to_the_top<K: Fn(Op, Width, u64, u64) -> u64>(c: &Calc<K>, x: Seq<F32>, win: int, lag: int, min: int, max: int)
    requires
        rounds(c),
        signs_cancel(c),
        0 <= min < lag < max <= 0x1_0000,
        ({
            let (a, b, d) = (lagged_sum(c, x, lag - 1, win), lagged_sum(c, x, lag, win), lagged_sum(c, x, lag + 1, win));
            &&& a.finite() && -0x100real <= amount(a) <= 0x100real
            &&& b.finite() && -0x100real <= amount(b) <= 0x100real
            &&& d.finite() && -0x100real <= amount(d) <= 0x100real
            &&& amount(a) - 2real * amount(b) + amount(d) <= -1real
            &&& amount(a) <= amount(b)
            &&& amount(d) <= amount(b)
        }),
    ensures
        ({
            let (a, b, d) = (lagged_sum(c, x, lag - 1, win), lagged_sum(c, x, lag, win), lagged_sum(c, x, lag + 1, win));
            let shift = amount(refined(c, x, win, lag, min, max)) - (lag as real);
            let bend = amount(a) - 2real * amount(b) + amount(d);
            1real / 16real * bend <= shift * bend - (amount(a) - amount(d)) / 2real <= -1real / 16real * bend
        }),
{
    lemma_single_counts(c, lag as u64);
    let (a, b, d) = (lagged_sum(c, x, lag - 1, win), lagged_sum(c, x, lag, win), lagged_sum(c, x, lag + 1, win));
    let (p, q, r) = (amount(a), amount(b), amount(d));
    lemma_vertex(c, a, b, d, p, q, r);
    let s = single(0x3f00_0000).mul(c, a.sub(c, d)).div(c, a.sub(c, single(0x4000_0000).mul(c, b)).add(c, d));
    let (v, bend, tr) = (amount(s), p - 2real * q + r, (p - r) / 2real);
    let n = F32::of_count(c, lag as u64);
    lemma_about_plus(c, n, lag as real, 0real, s, v, 0real, 0x1_0004real, 1real / 60real);
    let shift = amount(n.add(c, s)) - (lag as real);
    assert(1real / 16real * bend <= shift * bend - tr <= -1real / 16real * bend) by (nonlinear_arith)
        requires
            1real / 24real * bend <= v * bend - tr <= -1real / 24real * bend,
            -1real / 60real <= shift - v <= 1real / 60real,
            bend <= -1real,
    ;
}

/// The pitch that is found is the rate over the period.
pub proof fn law_pitches_are_one_over_the_period<K: Fn(Op, Width, u64, u64) -> u64>(c: &Calc<K>, samples: Seq<F32>, sample_rate: u32) -> (at: F32)
    requires
        rounds(c),
        pitch(c, samples, sample_rate) is Some,
        0x400 <= sample_rate <= 0x4_0000,
    ensures
        at.finite() && 1real <= amount(at) ==> about(pitch(c, samples, sample_rate)->Some_0, (sample_rate as real) / amount(at), 1real / 4real),
        ({
            let (win, min, max) = pitch_lags(c, F32::of_count(c, sample_rate as u64));
            let x = samples.skip((samples.len() - win - max) / 2);
            exists|lag: int| min <= lag <= max && at == #[trigger] refined(c, x, win as int, lag, min as int, max as int)
        }),
{
    lemma_single_counts(c, sample_rate as u64);
    let sr = F32::of_count(c, sample_rate as u64);
    let (win, min, max) = pitch_lags(c, sr);
    let x = samples.skip((samples.len() - win - max) / 2);
    let energy = square_sum(c, x, 0, win as int);
    let corrs = Seq::new((max - min + 1) as nat, |k: int| correlation(c, x, win as int, energy, min + k));
    let best = best_correlation(c, x, win as int, energy, min as int, max + 1);
    let lag = period(c, corrs, best, min as int)->Some_0;
    lemma_first(corrs, best.sub(c, single(0x3ca3_d70a)), 0);
    lemma_top(corrs, first_at_least(corrs, best.sub(c, single(0x3ca3_d70a)), 0));
    let at = refined(c, x, win as int, lag, min as int, max as int);
    if at.finite() && 1real <= amount(at) {
        lemma_about_over(c, sr, sample_rate as real, 0real, at, 1real, 0x4_0000real, 1real / 4real);
    }
    at
}

proof fn lemma_top(v: Seq<F32>, i: int)
    requires
        0 <= i < v.len(),
    ensures
        i <= climbed(v, i) < v.len(),
    decreases v.len() - i,
{
    if i + 1 < v.len() && v[i].lt(v[i + 1]) {
        lemma_top(v, i + 1);
    }
}

} // verus!
