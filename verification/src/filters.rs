//! What the filters do to a sound, with arithmetic that rounds to nearest: which tones they
//! keep and which they take away.
use crate::calc::{Calc, Op, Width};
use crate::dsp::{cookbook, filter_angle, Biquad, FilterKind};
use crate::num::{single, F32};
use crate::reals::{
    amount, lemma_compared, lemma_constant, lemma_constants, lemma_less, lemma_less_within, lemma_minus, lemma_order, lemma_over, lemma_plus,
    lemma_plus_within, lemma_quotient, lemma_times, size, speck,
};
use crate::rounding::rounds;
use crate::masks::lemma_ones;
use crate::washes::{lemma_wave, waves_stay_in_range};
use vstd::arithmetic::power2::{lemma2_to64, pow2};
use vstd::prelude::*;

verus! {

/// Whether two numbers are the same but for what a filter's rounding can do: 2^-12.
pub open spec fn alike(x: real, r: real) -> bool {
    size(x - r) <= 1real / 0x1000real
}

/// Within 2^-16.
spec fn close(x: real, r: real) -> bool {
    size(x - r) <= 1real / 0x1_0000real
}

/// What a filter's frequency and quality have to be for its coefficients to be numbers of an
/// ordinary size: a sine that is not negative (the angle is below a half turn), and a quality
/// below 2^20.
pub open spec fn ordinary<K: Fn(Op, Width, u64, u64) -> u64>(c: &Calc<K>, sample_rate: F32, freq: F32, q: F32) -> bool {
    &&& filter_angle(c, sample_rate, freq).finite()
    &&& amount(filter_angle(c, sample_rate, freq).sin(c)) >= 0real
    &&& q.finite()
    &&& amount(q) <= 0x10_0000real
}

/// A coefficient over a0.
proof fn lemma_normalised<K: Fn(Op, Width, u64, u64) -> u64>(c: &Calc<K>, b: F32, a0: F32)
    requires
        rounds(c),
        b.finite(),
        a0.finite(),
        size(amount(b)) <= 12real,
        1real / 2real <= amount(a0) <= 16real,
    ensures
        b.div(c, a0).finite(),
        0x40_0000real * size(amount(b.div(c, a0)) * amount(a0) - amount(b)) <= 13real,
{
    let (x, y) = (amount(b), amount(a0));
    lemma_quotient(x, y);
    let q = x / y;
    assert(size(q) <= 2real * size(x)) by (nonlinear_arith)
        requires
            q * y == x,
            y >= 1real / 2real,
    ;
    lemma_over(c, b, a0);
    let r = amount(b.div(c, a0));
    let e = r - q;
    assert(r * y - x == e * y) by (nonlinear_arith)
        requires
            e == r - q,
            q * y == x,
    ;
    let t = speck();
    assert(t <= 1real / 16real);
    assert(0x40_0000real * size(e * y) <= size(x) + 1real) by (nonlinear_arith)
        requires
            0x40_0000real * size(e) <= size(q) + t,
            t <= 1real / 16real,
            t >= 0real,
            q * y == x,
            1real / 2real <= y <= 16real,
    ;
}

/// The sine and the cosine of a filter's angle, and the width of its band.
spec fn sine_of<K: Fn(Op, Width, u64, u64) -> u64>(c: &Calc<K>, sample_rate: F32, freq: F32) -> F32 {
    filter_angle(c, sample_rate, freq).sin(c)
}

spec fn cosine_of<K: Fn(Op, Width, u64, u64) -> u64>(c: &Calc<K>, sample_rate: F32, freq: F32) -> F32 {
    filter_angle(c, sample_rate, freq).cos(c)
}

spec fn width_of<K: Fn(Op, Width, u64, u64) -> u64>(c: &Calc<K>, sample_rate: F32, freq: F32, q: F32) -> F32 {
    sine_of(c, sample_rate, freq).div(c, single(0x4000_0000).mul(c, q.max(single(0x3d4c_cccd))))
}

/// The quality that a filter has: at least 0.05.
pub open spec fn quality(q: F32) -> real {
    let least = amount(single(0x3d4c_cccd));
    if amount(q) < least {
        least
    } else {
        amount(q)
    }
}

/// How wide a band is.
proof fn lemma_width<K: Fn(Op, Width, u64, u64) -> u64>(c: &Calc<K>, sample_rate: F32, freq: F32, q: F32)
    requires
        rounds(c),
        waves_stay_in_range(c),
        ordinary(c, sample_rate, freq, q),
    ensures
        sine_of(c, sample_rate, freq).finite(),
        cosine_of(c, sample_rate, freq).finite(),
        width_of(c, sample_rate, freq, q).finite(),
        0real <= amount(sine_of(c, sample_rate, freq)) <= 1real,
        -1real <= amount(cosine_of(c, sample_rate, freq)) <= 1real,
        -1real / 0x1_0000real <= amount(width_of(c, sample_rate, freq, q)) <= 12real,
        close(
            amount(width_of(c, sample_rate, freq, q)) * 2real * quality(q),
            amount(sine_of(c, sample_rate, freq)),
        ),
        1real / 21real <= quality(q) <= 0x10_0000real,
{
    let w0 = filter_angle(c, sample_rate, freq);
    let (s, k) = (w0.sin(c), w0.cos(c));
    lemma_wave(c, w0);
    lemma_constants();
    lemma_order(s, single(0x3f80_0000));
    lemma_order(k, single(0x3f80_0000));
    lemma_order(single(0xbf80_0000), k);
    lemma_ones();
    let least = single(0x3d4c_cccd);
    lemma2_to64();
    lemma_constant(0x3d4c_cccd, 0xcc_cccd, 122);
    assert(pow2(28) as real == 0x1000_0000real);
    assert(amount(least) * 0x1000_0000real == 0xcc_cccdreal);
    lemma_compared(q, least);
    lemma_compared(least, q);
    let m = q.max(least);
    assert(amount(m) == quality(q)) by {
        lemma_order(q, least);
    }
    let two = single(0x4000_0000);
    lemma_times(c, two, m);
    let d = two.mul(c, m);
    let (dd, v) = (amount(d), quality(q));
    assert(dd >= 1real / 11real);
    lemma_quotient(amount(s), dd);
    let r = amount(s) / dd;
    let ss = amount(s);
    assert(0real <= r <= 11real * ss) by (nonlinear_arith)
        requires
            r * dd == ss,
            dd >= 1real / 11real,
            ss >= 0real,
    ;
    lemma_over(c, s, d);
    let w = amount(width_of(c, sample_rate, freq, q));
    assert(0real <= r <= 11real);
    assert(dd - 2real * v <= (2real * v + 1real) / 0x40_0000real && 2real * v - dd <= (2real * v + 1real) / 0x40_0000real);
    let (e, f) = (w - r, 2real * v - dd);
    assert(w * (2real * v) - ss == e * (2real * v) + r * f) by (nonlinear_arith)
        requires
            e == w - r,
            f == 2real * v - dd,
            r * dd == ss,
    ;
    // The two errors, each a small part of the sine or of the width.
    assert(size(e * (2real * v)) <= 1real / 0x2_0000real) by (nonlinear_arith)
        requires
            0x40_0000real * size(e) <= r + 1real / 0x1_0000_0000_0000_0000real,
            r * dd == ss,
            0real <= r,
            0real <= ss <= 1real,
            f == 2real * v - dd,
            size(f) <= (2real * v + 1real / 0x1_0000_0000_0000_0000real) / 0x40_0000real,
            1real / 21real <= v <= 0x10_0000real,
    ;
    assert(size(r * f) <= 1real / 0x2_0000real) by (nonlinear_arith)
        requires
            r * dd == ss,
            0real <= r,
            0real <= ss <= 1real,
            f == 2real * v - dd,
            size(f) <= (2real * v + 1real / 0x1_0000_0000_0000_0000real) / 0x40_0000real,
            1real / 21real <= v <= 0x10_0000real,
    ;
    assert(w * 2real * v == w * (2real * v)) by (nonlinear_arith);
}

/// What a0 is: one and the width.
spec fn scale_of<K: Fn(Op, Width, u64, u64) -> u64>(c: &Calc<K>, sample_rate: F32, freq: F32, q: F32) -> F32 {
    single(0x3f80_0000).add(c, width_of(c, sample_rate, freq, q))
}

/// The coefficients of each kind, times a0.
spec fn wanted(kind: FilterKind, k: real, w: real) -> (real, real, real) {
    match kind {
        FilterKind::LowPass => ((1real - k) / 2real, 1real - k, (1real - k) / 2real),
        FilterKind::HighPass => ((1real + k) / 2real, -(1real + k), (1real + k) / 2real),
        FilterKind::BandPass => (w, 0real, -w),
        FilterKind::Notch => (1real, -2real * k, 1real),
    }
}

/// The unscaled coefficients are what they should be but for rounding.
proof fn lemma_unscaled<K: Fn(Op, Width, u64, u64) -> u64>(c: &Calc<K>, kind: FilterKind, cos_w0: F32, alpha: F32)
    requires
        rounds(c),
        cos_w0.finite(),
        alpha.finite(),
        -1real <= amount(cos_w0) <= 1real,
        -1real / 0x1_0000real <= amount(alpha) <= 12real,
    ensures
        ({
            let (b0, b1, b2, a0, a1, a2) = cookbook(c, kind, cos_w0, alpha);
            let (k, w) = (amount(cos_w0), amount(alpha));
            let (x0, x1, x2) = wanted(kind, k, w);
            &&& b0.finite() && b1.finite() && b2.finite() && a0.finite() && a1.finite() && a2.finite()
            &&& 0x40_0000real * size(amount(b0) - x0) <= 13real
            &&& 0x40_0000real * size(amount(b1) - x1) <= 13real
            &&& 0x40_0000real * size(amount(b2) - x2) <= 13real
            &&& 0x40_0000real * size(amount(a0) - (1real + w)) <= 14real
            &&& 0x40_0000real * size(amount(a1) - -2real * k) <= 13real
            &&& 0x40_0000real * size(amount(a2) - (1real - w)) <= 13real
            &&& size(amount(b0)) <= 12real && size(amount(b1)) <= 12real && size(amount(b2)) <= 12real
            &&& size(amount(a1)) <= 12real && size(amount(a2)) <= 12real
        }),
{
    lemma_constants();
    let (unity, two, minus_two) = (single(0x3f80_0000), single(0x4000_0000), single(0xc000_0000));
    lemma_plus(c, unity, alpha);
    lemma_less(c, unity, alpha);
    lemma_times(c, minus_two, cos_w0);
    lemma_plus(c, unity, cos_w0);
    lemma_less(c, unity, cos_w0);
    let (lo, hi) = (unity.sub(c, cos_w0), unity.add(c, cos_w0));
    lemma_over(c, lo, two);
    lemma_over(c, hi, two);
    lemma_minus(hi);
    lemma_minus(alpha);
}

/// The coefficients, times a0, are what they should be but for rounding.
#[verifier::rlimit(40)]
proof fn lemma_designed<K: Fn(Op, Width, u64, u64) -> u64>(c: &Calc<K>, kind: FilterKind, sample_rate: F32, freq: F32, q: F32)
    requires
        rounds(c),
        waves_stay_in_range(c),
        ordinary(c, sample_rate, freq, q),
    ensures
        ({
            let f = Biquad::designed(c, kind, sample_rate, freq, q);
            let (k, w) = (amount(cosine_of(c, sample_rate, freq)), amount(width_of(c, sample_rate, freq, q)));
            let y = amount(scale_of(c, sample_rate, freq, q));
            let (x0, x1, x2) = wanted(kind, k, w);
            &&& f.b0.finite() && f.b1.finite() && f.b2.finite() && f.a1.finite() && f.a2.finite()
            &&& close(amount(f.b0) * y, x0)
            &&& close(amount(f.b1) * y, x1)
            &&& close(amount(f.b2) * y, x2)
            &&& close(amount(f.a1) * y, -2real * k)
            &&& close(amount(f.a2) * y, 1real - w)
            &&& close(y, 1real + w)
            &&& 1real / 2real <= y <= 16real
        }),
{
    let (k, w) = (cosine_of(c, sample_rate, freq), width_of(c, sample_rate, freq, q));
    lemma_width(c, sample_rate, freq, q);
    lemma_unscaled(c, kind, k, w);
    let (b0, b1, b2, a0, a1, a2) = cookbook(c, kind, k, w);
    lemma_normalised(c, b0, a0);
    lemma_normalised(c, b1, a0);
    lemma_normalised(c, b2, a0);
    lemma_normalised(c, a1, a0);
    lemma_normalised(c, a2, a0);
}

/// What is small times a0 is small.
proof fn lemma_over_scale(x: real, r: real, y: real)
    requires
        0x1_0000real * size(x * y - r * y) <= 8real,
        y >= 1real / 2real,
    ensures
        alike(x, r),
{
    let e = x - r;
    assert(x * y - r * y == e * y) by (nonlinear_arith)
        requires
            e == x - r,
    ;
    assert(0x1_0000real * size(e) <= 16real) by (nonlinear_arith)
        requires
            0x1_0000real * size(e * y) <= 8real,
            y >= 1real / 2real,
    ;
}

/// A low pass leaves a steady tone as loud as it was and takes the fastest one away: its
/// weights for a constant input add up as those of what it gave before do, and for an
/// alternating one they cancel.
pub proof fn law_low_passes_keep_what_is_slow<K: Fn(Op, Width, u64, u64) -> u64>(c: &Calc<K>, sample_rate: F32, freq: F32, q: F32)
    requires
        rounds(c),
        waves_stay_in_range(c),
        ordinary(c, sample_rate, freq, q),
    ensures
        ({
            let f = Biquad::designed(c, FilterKind::LowPass, sample_rate, freq, q);
            &&& alike(amount(f.b0) + amount(f.b1) + amount(f.b2), 1real + amount(f.a1) + amount(f.a2))
            &&& alike(amount(f.b0) - amount(f.b1) + amount(f.b2), 0real)
            &&& alike(amount(f.b0), amount(f.b2))
        }),
{
    let f = Biquad::designed(c, FilterKind::LowPass, sample_rate, freq, q);
    lemma_designed(c, FilterKind::LowPass, sample_rate, freq, q);
    let y = amount(scale_of(c, sample_rate, freq, q));
    let (b0, b1, b2, a1, a2) = (amount(f.b0), amount(f.b1), amount(f.b2), amount(f.a1), amount(f.a2));
    assert((b0 + b1 + b2) * y == b0 * y + b1 * y + b2 * y) by (nonlinear_arith);
    assert((1real + a1 + a2) * y == y + a1 * y + a2 * y) by (nonlinear_arith);
    assert((b0 - b1 + b2) * y == b0 * y - b1 * y + b2 * y) by (nonlinear_arith);
    assert(0real * y == 0real) by (nonlinear_arith);
    lemma_over_scale(b0 + b1 + b2, 1real + a1 + a2, y);
    lemma_over_scale(b0 - b1 + b2, 0real, y);
    lemma_over_scale(b0, b2, y);
}

/// A high pass takes a steady tone away and leaves the fastest one as loud as it was: its
/// weights for a constant input cancel, and for an alternating one they add up as those of
/// what it gave before do.
pub proof fn law_high_passes_keep_what_is_fast<K: Fn(Op, Width, u64, u64) -> u64>(c: &Calc<K>, sample_rate: F32, freq: F32, q: F32)
    requires
        rounds(c),
        waves_stay_in_range(c),
        ordinary(c, sample_rate, freq, q),
    ensures
        ({
            let f = Biquad::designed(c, FilterKind::HighPass, sample_rate, freq, q);
            &&& alike(amount(f.b0) + amount(f.b1) + amount(f.b2), 0real)
            &&& alike(amount(f.b0) - amount(f.b1) + amount(f.b2), 1real - amount(f.a1) + amount(f.a2))
            &&& alike(amount(f.b0), amount(f.b2))
        }),
{
    let f = Biquad::designed(c, FilterKind::HighPass, sample_rate, freq, q);
    lemma_designed(c, FilterKind::HighPass, sample_rate, freq, q);
    let y = amount(scale_of(c, sample_rate, freq, q));
    let (b0, b1, b2, a1, a2) = (amount(f.b0), amount(f.b1), amount(f.b2), amount(f.a1), amount(f.a2));
    assert((b0 + b1 + b2) * y == b0 * y + b1 * y + b2 * y) by (nonlinear_arith);
    assert((1real - a1 + a2) * y == y - a1 * y + a2 * y) by (nonlinear_arith);
    assert((b0 - b1 + b2) * y == b0 * y - b1 * y + b2 * y) by (nonlinear_arith);
    assert(0real * y == 0real) by (nonlinear_arith);
    lemma_over_scale(b0 + b1 + b2, 0real, y);
    lemma_over_scale(b0 - b1 + b2, 1real - a1 + a2, y);
    lemma_over_scale(b0, b2, y);
}

/// A band pass takes a steady tone and the fastest one away, and leaves the one in the middle
/// of its band as loud as it was.
pub proof fn law_band_passes_keep_the_middle<K: Fn(Op, Width, u64, u64) -> u64>(c: &Calc<K>, sample_rate: F32, freq: F32, q: F32)
    requires
        rounds(c),
        waves_stay_in_range(c),
        ordinary(c, sample_rate, freq, q),
    ensures
        ({
            let f = Biquad::designed(c, FilterKind::BandPass, sample_rate, freq, q);
            &&& alike(amount(f.b0) + amount(f.b1) + amount(f.b2), 0real)
            &&& alike(amount(f.b0) - amount(f.b1) + amount(f.b2), 0real)
            &&& alike(amount(f.b0) - amount(f.b2), 1real - amount(f.a2))
        }),
{
    let f = Biquad::designed(c, FilterKind::BandPass, sample_rate, freq, q);
    lemma_designed(c, FilterKind::BandPass, sample_rate, freq, q);
    let y = amount(scale_of(c, sample_rate, freq, q));
    let (b0, b1, b2, a2) = (amount(f.b0), amount(f.b1), amount(f.b2), amount(f.a2));
    assert((b0 + b1 + b2) * y == b0 * y + b1 * y + b2 * y) by (nonlinear_arith);
    assert((b0 - b1 + b2) * y == b0 * y - b1 * y + b2 * y) by (nonlinear_arith);
    assert((b0 - b2) * y == b0 * y - b2 * y) by (nonlinear_arith);
    assert((1real - a2) * y == y - a2 * y) by (nonlinear_arith);
    assert(0real * y == 0real) by (nonlinear_arith);
    lemma_over_scale(b0 + b1 + b2, 0real, y);
    lemma_over_scale(b0 - b1 + b2, 0real, y);
    lemma_over_scale(b0 - b2, 1real - a2, y);
}

/// A notch leaves a steady tone and the fastest one as loud as they were, and takes the one
/// at its frequency away: its weights are the same from both ends, and turn as the angle does.
pub proof fn law_notches_take_the_middle_away<K: Fn(Op, Width, u64, u64) -> u64>(c: &Calc<K>, sample_rate: F32, freq: F32, q: F32)
    requires
        rounds(c),
        waves_stay_in_range(c),
        ordinary(c, sample_rate, freq, q),
    ensures
        ({
            let f = Biquad::designed(c, FilterKind::Notch, sample_rate, freq, q);
            let k = amount(filter_angle(c, sample_rate, freq).cos(c));
            &&& alike(amount(f.b0) + amount(f.b1) + amount(f.b2), 1real + amount(f.a1) + amount(f.a2))
            &&& alike(amount(f.b0) - amount(f.b1) + amount(f.b2), 1real - amount(f.a1) + amount(f.a2))
            &&& alike(amount(f.b0), amount(f.b2))
            &&& alike(2real * k * amount(f.b0), -amount(f.b1))
        }),
{
    let f = Biquad::designed(c, FilterKind::Notch, sample_rate, freq, q);
    lemma_designed(c, FilterKind::Notch, sample_rate, freq, q);
    lemma_width(c, sample_rate, freq, q);
    let y = amount(scale_of(c, sample_rate, freq, q));
    let k = amount(cosine_of(c, sample_rate, freq));
    let (b0, b1, b2, a1, a2) = (amount(f.b0), amount(f.b1), amount(f.b2), amount(f.a1), amount(f.a2));
    assert((b0 + b1 + b2) * y == b0 * y + b1 * y + b2 * y) by (nonlinear_arith);
    assert((1real + a1 + a2) * y == y + a1 * y + a2 * y) by (nonlinear_arith);
    assert((1real - a1 + a2) * y == y - a1 * y + a2 * y) by (nonlinear_arith);
    assert((b0 - b1 + b2) * y == b0 * y - b1 * y + b2 * y) by (nonlinear_arith);
    lemma_over_scale(b0 + b1 + b2, 1real + a1 + a2, y);
    lemma_over_scale(b0 - b1 + b2, 1real - a1 + a2, y);
    lemma_over_scale(b0, b2, y);
    let p = b0 * y;
    assert((2real * k * b0) * y == 2real * (k * p)) by (nonlinear_arith)
        requires
            p == b0 * y,
    ;
    assert((-b1) * y == -(b1 * y)) by (nonlinear_arith);
    assert(size(k * p - k) <= size(p - 1real)) by (nonlinear_arith)
        requires
            -1real <= k <= 1real,
    ;
    lemma_over_scale(2real * k * b0, -b1, y);
}

proof fn lemma_shared(p: real, r: real, s: real, y: real)
    ensures
        (p + r + s) * y == p * y + r * y + s * y,
        (p + s) * y == p * y + s * y,
        1real * y == y,
{
    assert((p + r + s) * y == p * y + r * y + s * y) by (nonlinear_arith);
    assert((p + s) * y == p * y + s * y) by (nonlinear_arith);
}

/// The low, the band and the high pass of one frequency and quality add up to what came in,
/// and the low and the high pass alone to the notch.
pub proof fn law_passes_add_up<K: Fn(Op, Width, u64, u64) -> u64>(c: &Calc<K>, sample_rate: F32, freq: F32, q: F32)
    requires
        rounds(c),
        waves_stay_in_range(c),
        ordinary(c, sample_rate, freq, q),
    ensures
        ({
            let lo = Biquad::designed(c, FilterKind::LowPass, sample_rate, freq, q);
            let mid = Biquad::designed(c, FilterKind::BandPass, sample_rate, freq, q);
            let hi = Biquad::designed(c, FilterKind::HighPass, sample_rate, freq, q);
            let gap = Biquad::designed(c, FilterKind::Notch, sample_rate, freq, q);
            &&& alike(amount(lo.b0) + amount(mid.b0) + amount(hi.b0), 1real)
            &&& alike(amount(lo.b1) + amount(mid.b1) + amount(hi.b1), amount(lo.a1))
            &&& alike(amount(lo.b2) + amount(mid.b2) + amount(hi.b2), amount(lo.a2))
            &&& alike(amount(lo.b0) + amount(hi.b0), amount(gap.b0))
            &&& alike(amount(lo.b1) + amount(hi.b1), amount(gap.b1))
            &&& alike(amount(lo.b2) + amount(hi.b2), amount(gap.b2))
        }),
{
    let lo = Biquad::designed(c, FilterKind::LowPass, sample_rate, freq, q);
    let mid = Biquad::designed(c, FilterKind::BandPass, sample_rate, freq, q);
    let hi = Biquad::designed(c, FilterKind::HighPass, sample_rate, freq, q);
    let gap = Biquad::designed(c, FilterKind::Notch, sample_rate, freq, q);
    lemma_designed(c, FilterKind::LowPass, sample_rate, freq, q);
    lemma_designed(c, FilterKind::BandPass, sample_rate, freq, q);
    lemma_designed(c, FilterKind::HighPass, sample_rate, freq, q);
    lemma_designed(c, FilterKind::Notch, sample_rate, freq, q);
    let y = amount(scale_of(c, sample_rate, freq, q));
    lemma_shared(amount(lo.b0), amount(mid.b0), amount(hi.b0), y);
    lemma_shared(amount(lo.b1), amount(mid.b1), amount(hi.b1), y);
    lemma_shared(amount(lo.b2), amount(mid.b2), amount(hi.b2), y);
    lemma_over_scale(amount(lo.b0) + amount(mid.b0) + amount(hi.b0), 1real, y);
    lemma_over_scale(amount(lo.b1) + amount(mid.b1) + amount(hi.b1), amount(lo.a1), y);
    lemma_over_scale(amount(lo.b2) + amount(mid.b2) + amount(hi.b2), amount(lo.a2), y);
    lemma_over_scale(amount(lo.b0) + amount(hi.b0), amount(gap.b0), y);
    lemma_over_scale(amount(lo.b1) + amount(hi.b1), amount(gap.b1), y);
    lemma_over_scale(amount(lo.b2) + amount(hi.b2), amount(gap.b2), y);
}

/// Every kind rings at the same frequency and for as long: what comes back from earlier
/// outputs turns as the angle does, and fades with the quality.
pub proof fn law_filters_ring_at_their_frequency<K: Fn(Op, Width, u64, u64) -> u64>(c: &Calc<K>, kind: FilterKind, sample_rate: F32, freq: F32, q: F32)
    requires
        rounds(c),
        waves_stay_in_range(c),
        ordinary(c, sample_rate, freq, q),
    ensures
        ({
            let f = Biquad::designed(c, kind, sample_rate, freq, q);
            let w0 = filter_angle(c, sample_rate, freq);
            &&& alike(-amount(f.a1), amount(w0.cos(c)) * (1real + amount(f.a2)))
            &&& size(
                (1real - amount(f.a2)) * 2real * quality(q) - amount(w0.sin(c)) * (1real + amount(f.a2)),
            ) <= (1real + quality(q)) / 0x400real
        }),
{
    let f = Biquad::designed(c, kind, sample_rate, freq, q);
    lemma_designed(c, kind, sample_rate, freq, q);
    lemma_width(c, sample_rate, freq, q);
    let y = amount(scale_of(c, sample_rate, freq, q));
    let (k, s) = (amount(cosine_of(c, sample_rate, freq)), amount(sine_of(c, sample_rate, freq)));
    let (w, v) = (amount(width_of(c, sample_rate, freq, q)), quality(q));
    let (a1, a2) = (amount(f.a1), amount(f.a2));
    let p = a2 * y;
    assert((k * (1real + a2)) * y == k * (y + p)) by (nonlinear_arith)
        requires
            p == a2 * y,
    ;
    assert((-a1) * y == -(a1 * y)) by (nonlinear_arith);
    assert(size(k * (y + p) - 2real * k) <= size(y + p - 2real)) by (nonlinear_arith)
        requires
            -1real <= k <= 1real,
    ;
    lemma_over_scale(-a1, k * (1real + a2), y);
    // (1 - a2) * 2v * y is about 2w * 2v, and s * (1 + a2) * y about 2s.
    let left = (1real - a2) * 2real * v;
    let right = s * (1real + a2);
    let e = y - p - 2real * w;
    assert(left * y == e * (2real * v) + 2real * (w * 2real * v)) by (nonlinear_arith)
        requires
            left == (1real - a2) * 2real * v,
            p == a2 * y,
            e == y - p - 2real * w,
    ;
    let g = y + p - 2real;
    assert(right * y == s * g + 2real * s) by (nonlinear_arith)
        requires
            right == s * (1real + a2),
            p == a2 * y,
            g == y + p - 2real,
    ;
    assert(size(e * (2real * v)) <= 4real * v / 0x1_0000real) by (nonlinear_arith)
        requires
            size(e) <= 2real / 0x1_0000real,
            v > 0real,
    ;
    assert(size(s * g) <= 2real / 0x1_0000real) by (nonlinear_arith)
        requires
            size(g) <= 2real / 0x1_0000real,
            0real <= s <= 1real,
    ;
    let h = left - right;
    assert(size(h * y) <= (4real + 4real * v) / 0x1_0000real) by {
        assert(h * y == left * y - right * y) by (nonlinear_arith)
            requires
                h == left - right,
        ;
    }
    assert(size(h) <= (1real + v) / 0x400real) by (nonlinear_arith)
        requires
            size(h * y) <= (4real + 4real * v) / 0x1_0000real,
            y >= 1real / 2real,
            v > 0real,
    ;
}

/// Whether a single is a number of that size at most.
pub open spec fn up_to(x: F32, peak: real) -> bool {
    x.finite() && size(amount(x)) <= peak
}

/// A filter's output is the sum of the last three inputs and what it gave for the last two,
/// each with its weight, the weights of the outputs against the others.
#[verifier::rlimit(40)]
pub proof fn law_filters_weigh_the_last_samples<K: Fn(Op, Width, u64, u64) -> u64>(c: &Calc<K>, f: Biquad, x: F32, peak: real)
    requires
        rounds(c),
        up_to(f.b0, 32real) && up_to(f.b1, 32real) && up_to(f.b2, 32real),
        up_to(f.a1, 32real) && up_to(f.a2, 32real),
        0real <= peak <= 0x10_0000real,
        up_to(x, peak) && up_to(f.x1, peak) && up_to(f.x2, peak),
        up_to(f.y1, peak) && up_to(f.y2, peak),
    ensures
        f.output(c, x).finite(),
        size(
            amount(f.output(c, x)) - (amount(f.b0) * amount(x) + amount(f.b1) * amount(f.x1) + amount(f.b2) * amount(f.x2)
                - amount(f.a1) * amount(f.y1) - amount(f.a2) * amount(f.y2)),
        ) <= (peak + 1real) / 0x800real,
        f.after(c, x).x1 == x && f.after(c, x).x2 == f.x1,
        f.after(c, x).y1 == f.output(c, x) && f.after(c, x).y2 == f.y1,
{
    lemma_weighed(c, f.b0, x, peak);
    lemma_weighed(c, f.b1, f.x1, peak);
    lemma_weighed(c, f.b2, f.x2, peak);
    lemma_weighed(c, f.a1, f.y1, peak);
    lemma_weighed(c, f.a2, f.y2, peak);
    let (p0, p1, p2) = (f.b0.mul(c, x), f.b1.mul(c, f.x1), f.b2.mul(c, f.x2));
    let (p3, p4) = (f.a1.mul(c, f.y1), f.a2.mul(c, f.y2));
    let (w0, w1, w2) = (amount(f.b0) * amount(x), amount(f.b1) * amount(f.x1), amount(f.b2) * amount(f.x2));
    let (w3, w4) = (amount(f.a1) * amount(f.y1), amount(f.a2) * amount(f.y2));
    lemma_five(c, (p0, p1, p2, p3, p4), (w0, w1, w2, w3, w4), peak);
}

/// The sum of five products.
proof fn lemma_five<K: Fn(Op, Width, u64, u64) -> u64>(c: &Calc<K>, p: (F32, F32, F32, F32, F32), w: (real, real, real, real, real), peak: real)
    requires
        rounds(c),
        0real <= peak <= 0x10_0000real,
        p.0.finite() && p.1.finite() && p.2.finite() && p.3.finite() && p.4.finite(),
        weighed(p.0, w.0, peak) && weighed(p.1, w.1, peak) && weighed(p.2, w.2, peak) && weighed(p.3, w.3, peak) && weighed(p.4, w.4, peak),
    ensures
        ({
            let s = p.0.add(c, p.1).add(c, p.2).sub(c, p.3).sub(c, p.4);
            &&& s.finite()
            &&& size(amount(s) - (w.0 + w.1 + w.2 - w.3 - w.4)) <= (peak + 1real) / 0x800real
        }),
{
    let m = peak + 1real;
    let t = speck();
    assert(0real < t <= 1real);
    lemma_plus_within(c, p.0, p.1, 66real * m);
    let s1 = p.0.add(c, p.1);
    lemma_plus_within(c, s1, p.2, 101real * m);
    let s2 = s1.add(c, p.2);
    lemma_less_within(c, s2, p.3, 136real * m);
    let s3 = s2.sub(c, p.3);
    lemma_less_within(c, s3, p.4, 170real * m);
}

/// Whether a single is that product but for rounding.
spec fn weighed(p: F32, w: real, peak: real) -> bool {
    &&& -(32real * peak) <= w <= 32real * peak
    &&& -(32real * peak + 1real) <= 0x40_0000real * (amount(p) - w) <= 32real * peak + 1real
}

proof fn lemma_weighed<K: Fn(Op, Width, u64, u64) -> u64>(c: &Calc<K>, w: F32, x: F32, peak: real)
    requires
        rounds(c),
        up_to(w, 32real),
        up_to(x, peak),
        0real <= peak <= 0x10_0000real,
    ensures
        w.mul(c, x).finite(),
        weighed(w.mul(c, x), amount(w) * amount(x), peak),
{
    let (a, b) = (amount(w), amount(x));
    assert(size(a * b) <= 32real * peak) by (nonlinear_arith)
        requires
            size(a) <= 32real,
            size(b) <= peak,
    ;
    lemma_times(c, w, x);
}

/// Weights are of an ordinary size.
proof fn lemma_weights_up_to<K: Fn(Op, Width, u64, u64) -> u64>(c: &Calc<K>, kind: FilterKind, sample_rate: F32, freq: F32, q: F32)
    requires
        rounds(c),
        waves_stay_in_range(c),
        ordinary(c, sample_rate, freq, q),
    ensures
        ({
            let f = Biquad::designed(c, kind, sample_rate, freq, q);
            &&& up_to(f.b0, 32real) && up_to(f.b1, 32real) && up_to(f.b2, 32real)
            &&& up_to(f.a1, 32real) && up_to(f.a2, 32real)
        }),
{
    let f = Biquad::designed(c, kind, sample_rate, freq, q);
    lemma_designed(c, kind, sample_rate, freq, q);
    lemma_width(c, sample_rate, freq, q);
    let y = amount(scale_of(c, sample_rate, freq, q));
    lemma_up_to(amount(f.b0), y);
    lemma_up_to(amount(f.b1), y);
    lemma_up_to(amount(f.b2), y);
    lemma_up_to(amount(f.a1), y);
    lemma_up_to(amount(f.a2), y);
}

proof fn lemma_up_to(b: real, y: real)
    requires
        size(b * y) <= 13real,
        y >= 1real / 2real,
    ensures
        size(b) <= 32real,
{
    assert(size(b) <= 26real) by (nonlinear_arith)
        requires
            size(b * y) <= 13real,
            y >= 1real / 2real,
    ;
}

/// Settled on a constant input, a low pass gives it back, and a high pass gives nothing.
pub proof fn law_settled_filters<K: Fn(Op, Width, u64, u64) -> u64>(c: &Calc<K>, sample_rate: F32, freq: F32, q: F32, x: F32, peak: real)
    requires
        rounds(c),
        waves_stay_in_range(c),
        ordinary(c, sample_rate, freq, q),
        0real <= peak <= 0x10_0000real,
        up_to(x, peak),
    ensures
        ({
            let lo = Biquad::designed(c, FilterKind::LowPass, sample_rate, freq, q);
            let hi = Biquad::designed(c, FilterKind::HighPass, sample_rate, freq, q);
            let settled_lo = Biquad { x1: x, x2: x, y1: x, y2: x, ..lo };
            let settled_hi = Biquad { x1: x, x2: x, ..hi };
            &&& size(amount(settled_lo.output(c, x)) - amount(x)) <= (peak + 1real) / 0x200real
            &&& size(amount(settled_hi.output(c, x))) <= (peak + 1real) / 0x200real
        }),
{
    let lo = Biquad::designed(c, FilterKind::LowPass, sample_rate, freq, q);
    let hi = Biquad::designed(c, FilterKind::HighPass, sample_rate, freq, q);
    let settled_lo = Biquad { x1: x, x2: x, y1: x, y2: x, ..lo };
    let settled_hi = Biquad { x1: x, x2: x, ..hi };
    lemma_constants();
    lemma_weights_up_to(c, FilterKind::LowPass, sample_rate, freq, q);
    lemma_weights_up_to(c, FilterKind::HighPass, sample_rate, freq, q);
    law_filters_weigh_the_last_samples(c, settled_lo, x, peak);
    law_filters_weigh_the_last_samples(c, settled_hi, x, peak);
    law_low_passes_keep_what_is_slow(c, sample_rate, freq, q);
    law_high_passes_keep_what_is_fast(c, sample_rate, freq, q);
    let v = amount(x);
    let (b0, b1, b2, a1, a2) = (amount(lo.b0), amount(lo.b1), amount(lo.b2), amount(lo.a1), amount(lo.a2));
    let e = b0 + b1 + b2 - (1real + a1 + a2);
    assert(b0 * v + b1 * v + b2 * v - a1 * v - a2 * v == v + e * v) by (nonlinear_arith)
        requires
            e == b0 + b1 + b2 - (1real + a1 + a2),
    ;
    assert(size(e * v) <= peak / 0x1000real) by (nonlinear_arith)
        requires
            size(e) <= 1real / 0x1000real,
            size(v) <= peak,
    ;
    let (d0, d1, d2) = (amount(hi.b0), amount(hi.b1), amount(hi.b2));
    let g = d0 + d1 + d2;
    let (z1, z2) = (amount(hi.a1), amount(hi.a2));
    assert(d0 * v + d1 * v + d2 * v - z1 * 0real - z2 * 0real == g * v) by (nonlinear_arith)
        requires
            g == d0 + d1 + d2,
    ;
    assert(size(g * v) <= peak / 0x1000real) by (nonlinear_arith)
        requires
            size(g) <= 1real / 0x1000real,
            size(v) <= peak,
    ;
}

/// A full turn as singles have it.
pub open spec fn turn() -> real {
    0xc9_0fdbreal / 0x20_0000real
}

/// A filter's angle is the part of a turn that its frequency goes round in a sample, for
/// frequencies from 10 Hz to nearly half the rate; lower and higher ones count as the ends.
pub proof fn law_filter_angles_follow_the_frequency<K: Fn(Op, Width, u64, u64) -> u64>(c: &Calc<K>, sample_rate: F32, freq: F32)
    requires
        rounds(c),
        sample_rate.finite(),
        freq.finite(),
        0x100real <= amount(sample_rate) <= 0x10_0000real,
    ensures
        ({
            let (w, r, f) = (amount(filter_angle(c, sample_rate, freq)), amount(sample_rate), amount(freq));
            &&& filter_angle(c, sample_rate, freq).finite()
            &&& 0real < w < 31real / 10real
            &&& 10real <= f <= r * 48real / 100real ==> size(w * r - turn() * f) <= r / 0x1_0000real
            &&& f <= 10real ==> size(w * r - turn() * 10real) <= r / 0x1_0000real
            &&& r / 2real <= f ==> size(w * r - turn() * r * 49real / 100real) <= r / 0x1_0000real
        }),
{
    lemma2_to64();
    let (low, part, tau) = (single(0x4120_0000), single(0x3efa_e148), single(0x40c9_0fdb));
    lemma_constant(0x4120_0000, 0xa0_0000, 130);
    lemma_constant(0x3efa_e148, 0xfa_e148, 125);
    lemma_constant(0x40c9_0fdb, 0xc9_0fdb, 129);
    assert(pow2(20) as real == 0x10_0000real);
    assert(pow2(25) as real == 0x200_0000real);
    assert(pow2(21) as real == 0x20_0000real);
    assert(amount(low) * 0x10_0000real == 0xa0_0000real);
    assert(amount(part) * 0x200_0000real == 0xfa_e148real);
    assert(amount(tau) * 0x20_0000real == 0xc9_0fdbreal);
    let (r, f, h) = (amount(sample_rate), amount(freq), amount(part));
    assert(49real / 100real <= h <= 4900001real / 10000000real);
    assert(r * 49real / 100real <= r * h <= r * 4900001real / 10000000real) by (nonlinear_arith)
        requires
            49real / 100real <= h <= 4900001real / 10000000real,
            r >= 0real,
    ;
    lemma_times(c, sample_rate, part);
    let top = sample_rate.mul(c, part);
    lemma_compared(freq, low);
    lemma_compared(top, freq);
    let g = freq.clamped(low, top);
    let t = turn();
    assert(amount(tau) == t);
    let gg = amount(g);
    assert(0real <= t * gg <= 7real * gg) by (nonlinear_arith)
        requires
            0real <= t <= 7real,
            gg >= 0real,
    ;
    lemma_times(c, tau, g);
    let p = tau.mul(c, g);
    let pp = amount(p);
    lemma_quotient(pp, r);
    let k = pp / r;
    assert(size(pp - t * gg) <= r / 0x10_0000real);
    assert(0real <= k <= 4real) by (nonlinear_arith)
        requires
            k * r == pp,
            0real <= pp <= 4real * r,
            r > 0real,
    ;
    lemma_over(c, p, sample_rate);
    let w = amount(filter_angle(c, sample_rate, freq));
    let e = w - k;
    assert(w * r - pp == e * r) by (nonlinear_arith)
        requires
            e == w - k,
            k * r == pp,
    ;
    assert(size(e * r) <= r / 0x8_0000real) by (nonlinear_arith)
        requires
            size(e) <= 1real / 0x8_0000real,
            r > 0real,
    ;
    assert(w < 31real / 10real) by (nonlinear_arith)
        requires
            w * r <= 309real / 100real * r,
            r > 0real,
    ;
    assert(w > 0real) by (nonlinear_arith)
        requires
            w * r > 0real,
            r > 0real,
    ;
    assert(r / 2real <= f ==> gg == amount(top));
    assert(t * (r * 49real / 100real) == t * r * 49real / 100real) by (nonlinear_arith);
    let d = amount(top) - r * 49real / 100real;
    assert(t * amount(top) == t * (r * 49real / 100real) + t * d) by (nonlinear_arith)
        requires
            d == amount(top) - r * 49real / 100real,
    ;
    assert(0real - r / 0x2_0000real <= t * d <= r / 0x2_0000real) by (nonlinear_arith)
        requires
            0real - r / 0x20_0000real <= d <= r / 0x20_0000real,
            0real <= t <= 7real,
            r > 0real,
    ;
}

} // verus!
