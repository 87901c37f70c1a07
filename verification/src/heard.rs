//! What a grain sounds like: which samples of its source it plays, how loud, on which side
//! and for how long, with arithmetic that rounds to nearest.
use crate::audio::{grain_sample, grain_samples, grain_start, interpolated, left_mixed, pan_angle, right_mixed};
use crate::calc::{Calc, Op, Width};
use crate::clocks::rounds_to_whole;
use crate::dsp::grain_env_skewed;
use crate::grain::GrainEvent;
use crate::num::{double, single, F32, F64};
use crate::reals::{
    about, about_double, amount, amount_of_double, converts, kept_within, lemma_about_less, lemma_about_less_double, lemma_about_plus, lemma_about_plus_double,
    lemma_about_times, lemma_about_times_double, lemma_compared_double, lemma_constant, lemma_constants, lemma_counted, lemma_counts, lemma_exactly,
    lemma_exactly_double, lemma_kept, lemma_narrowed, lemma_narrowed_exactly, lemma_order_double, lemma_quotient, lemma_whole_double, lemma_widened, size,
};
use crate::rounding::rounds;
use crate::rounding_double::{lemma_truncated, rounds_doubles, unit};
use crate::seen::lemma_wave_amounts;
use crate::washes::waves_stay_in_range;
use vstd::arithmetic::power2::{lemma2_to64, lemma_pow2_pos, pow2};
use vstd::prelude::*;

verus! {

// ------------------------------------------------------------- between samples

/// The whole part of an index.
proof fn lemma_index<K: Fn(Op, Width, u64, u64) -> u64>(c: &Calc<K>, idx: F64, k: int)
    requires
        rounds_doubles(c),
        idx.finite(),
        0 <= k < 0x8000_0000,
        k as real <= amount_of_double(idx) < k as real + 1real,
    ensures
        idx.to_size(c) == k,
        !idx.lt(double(0)),
{
    lemma_pow2_pos(1074);
    let (u, v) = (unit() as real, idx.value());
    lemma_quotient(v as real, u);
    lemma_counted(k, unit());
    let (x, kk) = (amount_of_double(idx), k as real);
    assert(kk * u <= x * u < kk * u + u) by (nonlinear_arith)
        requires
            kk <= x < kk + 1real,
            u > 0real,
    ;
    let n = k * unit();
    assert(n <= v < n + unit());
    assert(v / unit() == k) by (nonlinear_arith)
        requires
            n == k * unit(),
            n <= v < n + unit(),
            unit() > 0,
    ;
    assert(n >= 0) by (nonlinear_arith)
        requires
            n == k * unit(),
            k >= 0,
            unit() > 0,
    ;
    lemma_truncated(c, idx);
    lemma_order_double(idx, double(0));
    lemma_compared_double(idx, double(0));
}

/// At a whole index the sample there is played, as it is.
pub proof fn law_whole_indices_play_their_sample<K: Fn(Op, Width, u64, u64) -> u64>(c: &Calc<K>, samples: Seq<F32>, idx: F64, k: int)
    requires
        rounds(c),
        rounds_doubles(c),
        converts(c),
        idx.finite(),
        amount_of_double(idx) == k as real,
        0 <= k < 0x8000_0000,
        k + 1 < samples.len(),
        samples[k].finite(),
        samples[k + 1].finite(),
    ensures
        interpolated(c, samples, idx).finite(),
        amount(interpolated(c, samples, idx)) == amount(samples[k]),
{
    lemma_constants();
    lemma_index(c, idx, k);
    lemma_counts(c, k as u64);
    let at = F64::of_count(c, k as u64);
    lemma_order_double(double(0), double(0));
    lemma_exactly_double(c, idx, at, double(0));
    let d = idx.sub(c, at);
    lemma_narrowed_exactly(c, d, single(0));
    let frac = d.to_f32(c);
    let unity = single(0x3f80_0000);
    lemma_exactly(c, unity, frac, unity);
    let rest = unity.sub(c, frac);
    let (a, b) = (samples[k], samples[k + 1]);
    let (x, y, p, q) = (amount(a), amount(b), amount(rest), amount(frac));
    assert(x * p == x && y * q == 0real) by (nonlinear_arith)
        requires
            p == 1real,
            q == 0real,
    ;
    lemma_exactly(c, a, rest, a);
    lemma_exactly(c, b, frac, single(0));
    lemma_exactly(c, a.mul(c, rest), b.mul(c, frac), a);
}

/// Between two samples a mixture of both is played: of each the more, the nearer the index is.
pub proof fn law_indices_in_between_mix_their_samples<K: Fn(Op, Width, u64, u64) -> u64>(c: &Calc<K>, samples: Seq<F32>, idx: F64, k: int)
    requires
        rounds(c),
        rounds_doubles(c),
        converts(c),
        idx.finite(),
        k as real <= amount_of_double(idx) < k as real + 1real,
        0 <= k < 0x8000_0000,
        k + 1 < samples.len(),
        samples[k].finite() && size(amount(samples[k])) <= 16real,
        samples[k + 1].finite() && size(amount(samples[k + 1])) <= 16real,
    ensures
        ({
            let f = amount_of_double(idx) - k as real;
            about(
                interpolated(c, samples, idx),
                amount(samples[k]) * (1real - f) + amount(samples[k + 1]) * f,
                1real / 0x4000real,
            )
        }),
{
    let u = 1real / 0x40_0000real;
    lemma_constants();
    lemma_index(c, idx, k);
    lemma_counts(c, k as u64);
    let at = F64::of_count(c, k as u64);
    let f = amount_of_double(idx) - k as real;
    lemma_about_less_double(c, idx, amount_of_double(idx), 0real, at, k as real, 0real, 1real, u);
    let d = idx.sub(c, at);
    lemma_narrowed(c, d, 2real);
    let frac = d.to_f32(c);
    assert(about(frac, f, 4real * u));
    let unity = single(0x3f80_0000);
    lemma_about_less(c, unity, 1real, 0real, frac, f, 4real * u, 1real, 7real * u);
    let rest = unity.sub(c, frac);
    let (a, b) = (samples[k], samples[k + 1]);
    lemma_about_times(c, a, amount(a), 0real, 16real, rest, 1real - f, 7real * u, 1real, 130real * u);
    lemma_about_times(c, b, amount(b), 0real, 16real, frac, f, 4real * u, 1real, 82real * u);
    lemma_about_plus(
        c,
        a.mul(c, rest),
        amount(a) * (1real - f),
        130real * u,
        b.mul(c, frac),
        amount(b) * f,
        82real * u,
        32real,
        250real * u,
    );
}

/// Before the first sample and from the last one on nothing is played.
pub proof fn law_nothing_is_played_outside<K: Fn(Op, Width, u64, u64) -> u64>(c: &Calc<K>, samples: Seq<F32>, idx: F64)
    requires
        rounds_doubles(c),
        idx.finite(),
        amount_of_double(idx) < 0real || (samples.len() < 0x4000_0000 && samples.len() as real - 1real <= amount_of_double(idx)
            < 0x4000_0000real),
    ensures
        interpolated(c, samples, idx) == single(0),
{
    lemma_order_double(idx, double(0));
    lemma_compared_double(idx, double(0));
    if amount_of_double(idx) >= 0real {
        let k = lemma_whole_below(idx);
        lemma_index(c, idx, k);
    }
}

/// The whole number below an index.
proof fn lemma_whole_below(idx: F64) -> (k: int)
    requires
        idx.finite(),
        0real <= amount_of_double(idx) < 0x4000_0000real,
    ensures
        0 <= k < 0x4000_0000,
        k as real <= amount_of_double(idx) < k as real + 1real,
{
    lemma_pow2_pos(1074);
    let (u, v) = (unit(), idx.value());
    lemma_order_double(double(0), idx);
    let k = v / u;
    let m = v % u;
    assert(v == k * u + m && 0 <= m < u && k >= 0) by (nonlinear_arith)
        requires
            k == v / u,
            m == v % u,
            u > 0,
            v >= 0,
    ;
    lemma_counted(k, u);
    let (x, uu, kk, mm) = (amount_of_double(idx), u as real, k as real, m as real);
    lemma_quotient(v as real, uu);
    assert(kk <= x < kk + 1real) by (nonlinear_arith)
        requires
            x * uu == kk * uu + mm,
            0real <= mm < uu,
            uu > 0real,
    ;
    k
}

// --------------------------------------------------------------- what is read

/// The envelope of a grain at its sample `i` of `n`.
pub open spec fn envelope_at<K: Fn(Op, Width, u64, u64) -> u64>(c: &Calc<K>, ev: GrainEvent, i: i64, n: i64) -> F32 {
    grain_env_skewed(c, F32::of_int(c, i).div(c, F32::of_int(c, n)), ev.envelope, ev.env_skew)
}

/// Where a grain reads its source at its sample `i`, in samples of the source: from its
/// position on, a ratio further with every sample; reversed, from its end back.
pub open spec fn read_at(ev: GrainEvent, src_rate: u32, i: i64) -> real {
    let from = amount_of_double(ev.source_pos) * (src_rate as real);
    let along = (i as real) * amount(ev.pitch_ratio);
    if ev.reverse {
        from + amount(ev.duration) * amount(ev.pitch_ratio) * (src_rate as real) - along
    } else {
        from + along
    }
}

/// Whether a grain reads at ordinary places: ratios up to 64, rates up to 2^20, no more than
/// 2^16 seconds.
pub open spec fn audible(ev: GrainEvent, src_rate: u32, i: i64) -> bool {
    &&& ev.source_pos.finite() && size(amount_of_double(ev.source_pos)) <= 0x1_0000real
    &&& ev.pitch_ratio.finite() && 0real <= amount(ev.pitch_ratio) <= 64real
    &&& ev.duration.finite() && 0real <= amount(ev.duration) <= 64real
    &&& src_rate <= 0x10_0000
    &&& 0 <= i <= 0x1000_0000
}

/// A grain plays its source from where it reads on, at the speed of its ratio, backwards from
/// its end where it is reversed, each sample times the envelope there. The index it reads at
/// is within 2^-10 of a sample of that.
pub proof fn law_grains_play_their_source<K: Fn(Op, Width, u64, u64) -> u64>(c: &Calc<K>, samples: Seq<F32>, src_rate: u32, ev: GrainEvent, i: i64, n: i64) -> (idx: F64)
    requires
        rounds_doubles(c),
        converts(c),
        audible(ev, src_rate, i),
    ensures
        grain_sample(c, samples, F64::of_count(c, src_rate as u64), ev, i, n) == interpolated(c, samples, idx).mul(
            c,
            envelope_at(c, ev, i, n),
        ),
        about_double(idx, read_at(ev, src_rate, i), 1real / 0x400real),
{
    let u = 1real / 0x8_0000_0000_0000real;
    lemma_counts(c, src_rate as u64);
    lemma_whole_double(c, i);
    lemma_widened(c, ev.pitch_ratio);
    lemma_widened(c, ev.duration);
    let (rate, w) = (F64::of_count(c, src_rate as u64), F64::of_int(c, i));
    let (p, d) = (ev.pitch_ratio.to_f64(c), ev.duration.to_f64(c));
    let (rr, ii, pp, dd) = (src_rate as real, i as real, amount(ev.pitch_ratio), amount(ev.duration));
    let pos = ev.source_pos;
    let from = amount_of_double(pos) * rr;
    lemma_about_times_double(c, pos, amount_of_double(pos), 0real, 0x1_0000real, rate, rr, 0real, 0x10_0000real, 1real / 0x4000real);
    lemma_about_times_double(c, w, ii, 0real, 0x1000_0000real, p, pp, 0real, 64real, 1real / 0x4000real);
    let (a, b) = (pos.mul(c, rate), w.mul(c, p));
    if ev.reverse {
        lemma_about_times_double(c, d, dd, 0real, 64real, p, pp, 0real, 64real, 0x2000real * u);
        let e = d.mul(c, p);
        lemma_about_times_double(c, e, dd * pp, 0x2000real * u, 0x1000real, rate, rr, 0real, 0x10_0000real, 1real / 0x4000real);
        let f = e.mul(c, rate);
        lemma_about_less_double(c, f, dd * pp * rr, 1real / 0x4000real, b, ii * pp, 1real / 0x4000real, 0x10_0000_0000real, 1real / 0x1000real);
        let o = f.sub(c, b);
        lemma_about_plus_double(c, a, from, 1real / 0x4000real, o, dd * pp * rr - ii * pp, 1real / 0x1000real, 0x20_0000_0000real, 1real / 0x400real);
        a.add(c, o)
    } else {
        lemma_about_plus_double(c, a, from, 1real / 0x4000real, b, ii * pp, 1real / 0x4000real, 0x20_0000_0000real, 1real / 0x400real);
        a.add(c, b)
    }
}

/// A grain at its source's own pitch that starts on a sample plays the samples from there on,
/// one by one: its sample `i` is the source's sample `k + i`, times the envelope.
pub proof fn law_plain_grains_play_sample_by_sample<K: Fn(Op, Width, u64, u64) -> u64>(c: &Calc<K>, samples: Seq<F32>, rate: u32, ev: GrainEvent, i: i64, n: i64, k: int)
    requires
        rounds(c),
        rounds_doubles(c),
        converts(c),
        audible(ev, rate, i),
        !ev.reverse,
        amount(ev.pitch_ratio) == 1real,
        amount_of_double(ev.source_pos) * (rate as real) == k as real,
        0 <= k < 0x4000_0000,
        k + i + 1 < samples.len(),
        samples[k + i].finite() && size(amount(samples[k + i])) <= 16real,
        samples[k + i + 1].finite(),
        envelope_at(c, ev, i, n).finite() && size(amount(envelope_at(c, ev, i, n))) <= 2real,
    ensures
        about(
            grain_sample(c, samples, F64::of_count(c, rate as u64), ev, i, n),
            amount(samples[k + i]) * amount(envelope_at(c, ev, i, n)),
            1real / 0x1_0000real,
        ),
{
    lemma_counts(c, rate as u64);
    lemma_whole_double(c, i);
    lemma_widened(c, ev.pitch_ratio);
    let (r, w, p) = (F64::of_count(c, rate as u64), F64::of_int(c, i), ev.pitch_ratio.to_f64(c));
    lemma_counts(c, k as u64);
    lemma_counts(c, (k + i) as u64);
    let (at, to) = (F64::of_count(c, k as u64), F64::of_count(c, (k + i) as u64));
    lemma_exactly_double(c, ev.source_pos, r, at);
    let (x, y) = (amount_of_double(w), amount_of_double(p));
    assert(x * y == x) by (nonlinear_arith)
        requires
            y == 1real,
    ;
    lemma_exactly_double(c, w, p, w);
    lemma_exactly_double(c, ev.source_pos.mul(c, r), w.mul(c, p), to);
    let idx = ev.source_pos.mul(c, r).add(c, w.mul(c, p));
    law_whole_indices_play_their_sample(c, samples, idx, k + i);
    let (s, e) = (interpolated(c, samples, idx), envelope_at(c, ev, i, n));
    lemma_about_times(c, s, amount(s), 0real, 16real, e, amount(e), 0real, 2real, 1real / 0x1_0000real);
}

/// Two grains that differ only in where they start to read are as far apart in their source
/// all along as they start.
pub proof fn law_grains_stay_as_far_apart_as_they_start<K: Fn(Op, Width, u64, u64) -> u64>(c: &Calc<K>, samples: Seq<F32>, src_rate: u32, a: GrainEvent, b: GrainEvent, i: i64, n: i64) -> (r: (F64, F64))
    requires
        rounds_doubles(c),
        converts(c),
        audible(a, src_rate, i),
        audible(b, src_rate, i),
        b == (GrainEvent { source_pos: b.source_pos, ..a }),
    ensures
        grain_sample(c, samples, F64::of_count(c, src_rate as u64), a, i, n) == interpolated(c, samples, r.0).mul(
            c,
            envelope_at(c, a, i, n),
        ),
        grain_sample(c, samples, F64::of_count(c, src_rate as u64), b, i, n) == interpolated(c, samples, r.1).mul(
            c,
            envelope_at(c, a, i, n),
        ),
        size(
            amount_of_double(r.1) - amount_of_double(r.0) - (amount_of_double(b.source_pos) - amount_of_double(a.source_pos)) * (
            src_rate as real),
        ) <= 1real / 0x200real,
{
    let p = law_grains_play_their_source(c, samples, src_rate, a, i, n);
    let q = law_grains_play_their_source(c, samples, src_rate, b, i, n);
    let (x, y, k) = (amount_of_double(a.source_pos), amount_of_double(b.source_pos), src_rate as real);
    assert((y - x) * k == y * k - x * k) by (nonlinear_arith);
    (p, q)
}

// ----------------------------------------------------------- loudness and side

/// The angle of a pan: none at the left edge, an eighth of a turn in the middle, a quarter at
/// the right edge.
pub open spec fn side_angle(pan: F32) -> real {
    (kept_within(amount(pan), -1real, 1real) + 1real) * (0xc9_0fdbreal / 0x100_0000real)
}

pub proof fn law_pan_angles<K: Fn(Op, Width, u64, u64) -> u64>(c: &Calc<K>, pan: F32)
    requires
        rounds(c),
        pan.finite(),
    ensures
        about(pan_angle(c, pan), side_angle(pan), 1real / 0x4_0000real),
        amount(pan) <= -1real ==> amount(pan_angle(c, pan)) == 0real,
{
    let u = 1real / 0x40_0000real;
    lemma_constants();
    lemma2_to64();
    let (unity, minus, k) = (single(0x3f80_0000), single(0xbf80_0000), single(0x3f49_0fdb));
    lemma_constant(0x3f49_0fdb, 0xc9_0fdb, 126);
    assert(pow2(24) as real == 0x100_0000real);
    assert(amount(k) * 0x100_0000real == 0xc9_0fdbreal);
    lemma_kept(pan, minus, unity);
    let p = pan.clamped(minus, unity);
    lemma_about_plus(c, p, amount(p), 0real, unity, 1real, 0real, 2real, 3real * u);
    let s = p.add(c, unity);
    lemma_about_times(c, s, amount(p) + 1real, 3real * u, 2real, k, amount(k), 0real, 1real, 8real * u);
    if amount(pan) <= -1real {
        lemma_exactly(c, p, unity, single(0));
        let (x, y) = (amount(s), amount(k));
        assert(x * y == 0real) by (nonlinear_arith)
            requires
                x == 0real,
        ;
        lemma_exactly(c, s, k, single(0));
    }
}

/// A grain adds its samples to what is there, times its gain: on the left as far as the cosine
/// of its pan's angle goes, on the right as far as the sine does.
#[verifier::rlimit(40)]
pub proof fn law_grains_sound_on_their_side<K: Fn(Op, Width, u64, u64) -> u64>(c: &Calc<K>, samples: Seq<F32>, src_rate: u32, ev: GrainEvent, l: Seq<F32>, r: Seq<F32>, rate: u32, t0: F64, p: int)
    requires
        rounds(c),
        waves_stay_in_range(c),
        ev.pan.finite(),
        ev.gain.finite() && size(amount(ev.gain)) <= 16real,
        l.len() == r.len(),
        0 <= p < l.len(),
        l[p].finite() && size(amount(l[p])) <= 1024real,
        r[p].finite() && size(amount(r[p])) <= 1024real,
        ({
            let out = F64::of_count(c, rate as u64);
            let (start, n) = (grain_start(c, ev, out, t0), grain_samples(c, ev, out));
            let s = grain_sample(c, samples, F64::of_count(c, src_rate as u64), ev, (p - start) as i64, n);
            &&& start <= p < start + n
            &&& s.finite() && size(amount(s)) <= 16real
        }),
    ensures
        ({
            let out = F64::of_count(c, rate as u64);
            let (start, n) = (grain_start(c, ev, out, t0), grain_samples(c, ev, out));
            let s = amount(grain_sample(c, samples, F64::of_count(c, src_rate as u64), ev, (p - start) as i64, n));
            let angle = pan_angle(c, ev.pan);
            let (a, b) = (
                left_mixed(c, samples, src_rate, seq![ev], l, rate, t0)[p],
                right_mixed(c, samples, src_rate, seq![ev], r, rate, t0)[p],
            );
            &&& about(a, amount(l[p]) + s * (amount(angle.cos(c)) * amount(ev.gain)), 1real / 0x400real)
            &&& about(b, amount(r[p]) + s * (amount(angle.sin(c)) * amount(ev.gain)), 1real / 0x400real)
        }),
{
    let out = F64::of_count(c, rate as u64);
    let (start, n) = (grain_start(c, ev, out, t0), grain_samples(c, ev, out));
    let s = grain_sample(c, samples, F64::of_count(c, src_rate as u64), ev, (p - start) as i64, n);
    let angle = pan_angle(c, ev.pan);
    law_pan_angles(c, ev.pan);
    lemma_wave_amounts(c, angle);
    lemma_alone(c, samples, src_rate, ev, l, r, rate, t0, p);
    lemma_added(c, l[p], s, angle.cos(c), ev.gain);
    lemma_added(c, r[p], s, angle.sin(c), ev.gain);
}

/// What one grain alone makes of a sample that it covers.
proof fn lemma_alone<K: Fn(Op, Width, u64, u64) -> u64>(c: &Calc<K>, samples: Seq<F32>, src_rate: u32, ev: GrainEvent, l: Seq<F32>, r: Seq<F32>, rate: u32, t0: F64, p: int)
    requires
        l.len() == r.len(),
        0 <= p < l.len(),
        ({
            let out = F64::of_count(c, rate as u64);
            let (start, n) = (grain_start(c, ev, out, t0), grain_samples(c, ev, out));
            start <= p < start + n
        }),
    ensures
        ({
            let out = F64::of_count(c, rate as u64);
            let (start, n) = (grain_start(c, ev, out, t0), grain_samples(c, ev, out));
            let s = grain_sample(c, samples, F64::of_count(c, src_rate as u64), ev, (p - start) as i64, n);
            let angle = pan_angle(c, ev.pan);
            &&& left_mixed(c, samples, src_rate, seq![ev], l, rate, t0)[p] == l[p].add(c, s.mul(c, angle.cos(c).mul(c, ev.gain)))
            &&& right_mixed(c, samples, src_rate, seq![ev], r, rate, t0)[p] == r[p].add(c, s.mul(c, angle.sin(c).mul(c, ev.gain)))
        }),
{
    let one = seq![ev];
    assert(one.drop_last() =~= Seq::<GrainEvent>::empty());
    assert(one.last() == ev);
    reveal_with_fuel(left_mixed, 2);
    reveal_with_fuel(right_mixed, 2);
}

proof fn lemma_added<K: Fn(Op, Width, u64, u64) -> u64>(c: &Calc<K>, x: F32, s: F32, w: F32, g: F32)
    requires
        rounds(c),
        x.finite() && size(amount(x)) <= 1024real,
        s.finite() && size(amount(s)) <= 16real,
        w.finite() && -1real <= amount(w) <= 1real,
        g.finite() && size(amount(g)) <= 16real,
    ensures
        about(x.add(c, s.mul(c, w.mul(c, g))), amount(x) + amount(s) * (amount(w) * amount(g)), 1real / 0x400real),
{
    let u = 1real / 0x40_0000real;
    lemma_about_times(c, w, amount(w), 0real, 1real, g, amount(g), 0real, 16real, 17real * u);
    let h = w.mul(c, g);
    lemma_about_times(c, s, amount(s), 0real, 16real, h, amount(w) * amount(g), 17real * u, 16real, 530real * u);
    let q = amount(s) * (amount(w) * amount(g));
    lemma_about_plus(c, x, amount(x), 0real, s.mul(c, h), q, 530real * u, 1280real, 1900real * u);
}

/// A grain lasts as many samples as fit in its length.
pub proof fn law_grains_last_as_long_as_they_say<K: Fn(Op, Width, u64, u64) -> u64>(c: &Calc<K>, ev: GrainEvent, rate: u32)
    requires
        rounds_doubles(c),
        ev.duration.finite() && 0real <= amount(ev.duration) <= 64real,
        rate <= 0x10_0000,
    ensures
        ({
            let n = grain_samples(c, ev, F64::of_count(c, rate as u64)) as real;
            let want = amount(ev.duration) * (rate as real);
            want - 1real - 1real / 0x1_0000real <= n <= want + 1real / 0x1_0000real
        }),
{
    lemma_counts(c, rate as u64);
    lemma_widened(c, ev.duration);
    let (d, r) = (ev.duration.to_f64(c), F64::of_count(c, rate as u64));
    let (dd, rr) = (amount(ev.duration), rate as real);
    lemma_about_times_double(c, d, dd, 0real, 64real, r, rr, 0real, 0x10_0000real, 1real / 0x1_0000real);
    let p = d.mul(c, r);
    assert(dd * rr >= 0real) by (nonlinear_arith)
        requires
            dd >= 0real,
            rr >= 0real,
    ;
    lemma_product_sign(c, d, r);
    let k = lemma_whole_below(p);
    lemma_index(c, p, k);
    lemma_truncated_whole(c, p, k);
}

proof fn lemma_truncated_whole<K: Fn(Op, Width, u64, u64) -> u64>(c: &Calc<K>, p: F64, k: int)
    requires
        rounds_doubles(c),
        p.finite(),
        0 <= k < 0x4000_0000,
        k as real <= amount_of_double(p) < k as real + 1real,
    ensures
        p.to_int(c) == k,
{
    lemma_pow2_pos(1074);
    let (u, v) = (unit() as real, p.value());
    lemma_quotient(v as real, u);
    lemma_counted(k, unit());
    let (x, kk) = (amount_of_double(p), k as real);
    assert(kk * u <= x * u < kk * u + u) by (nonlinear_arith)
        requires
            kk <= x < kk + 1real,
            u > 0real,
    ;
    let n = k * unit();
    assert(v / unit() == k && n >= 0) by (nonlinear_arith)
        requires
            n == k * unit(),
            n <= v < n + unit(),
            unit() > 0,
            k >= 0,
    ;
    lemma_truncated(c, p);
}

/// A product of doubles that are not below zero is not below it.
pub(crate) proof fn lemma_product_sign<K: Fn(Op, Width, u64, u64) -> u64>(c: &Calc<K>, a: F64, b: F64)
    requires
        rounds_doubles(c),
        a.finite(),
        b.finite(),
        amount_of_double(a) >= 0real,
        amount_of_double(b) >= 0real,
        a.mul(c, b).finite(),
    ensures
        amount_of_double(a.mul(c, b)) >= 0real,
{
    let zero = F64 { bits: 0 };
    lemma_order_double(zero, a);
    lemma_order_double(zero, b);
    lemma_order_double(zero, a.mul(c, b));
    let n = a.value() * b.value();
    lemma_pow2_pos(1074);
    assert(n >= 0 && zero.value() * unit() == 0) by (nonlinear_arith)
        requires
            n == a.value() * b.value(),
            a.value() >= 0,
            b.value() >= 0,
            zero.value() == 0,
    ;
    reveal(rounds_doubles);
    assert(crate::rounding_double::rounded(a.mul(c, b), n, unit()));
    if crate::rounding_double::reached(n, unit()) {
        crate::rounding_double::lemma_at_least(a.mul(c, b), n, unit(), zero);
    }
}

/// A grain starts on the sample that is nearest to its onset.
pub proof fn law_grains_start_on_the_nearest_sample<K: Fn(Op, Width, u64, u64) -> u64>(c: &Calc<K>, ev: GrainEvent, rate: u32, t0: F64)
    requires
        rounds_doubles(c),
        rounds_to_whole(c),
        ev.onset.finite() && size(amount_of_double(ev.onset)) <= 0x1_0000real,
        t0.finite() && size(amount_of_double(t0)) <= 0x1_0000real,
        rate <= 0x10_0000,
    ensures
        size(
            (grain_start(c, ev, F64::of_count(c, rate as u64), t0) as real) - (amount_of_double(ev.onset) - amount_of_double(
                t0,
            )) * (rate as real),
        ) <= 1real / 2real + 1real / 0x400real,
{
    lemma_counts(c, rate as u64);
    let r = F64::of_count(c, rate as u64);
    let (x, y, rr) = (amount_of_double(ev.onset), amount_of_double(t0), rate as real);
    let u = 1real / 0x8_0000_0000_0000real;
    lemma_about_less_double(c, ev.onset, x, 0real, t0, y, 0real, 0x2_0000real, 0x2_0002real * u);
    let d = ev.onset.sub(c, t0);
    lemma_about_times_double(c, d, x - y, 0x2_0002real * u, 0x2_0000real, r, rr, 0real, 0x10_0000real, 1real / 0x400real);
    lemma_rounded_whole(c, d.mul(c, r));
}

/// Rounding to a whole number.
proof fn lemma_rounded_whole<K: Fn(Op, Width, u64, u64) -> u64>(c: &Calc<K>, a: F64)
    requires
        rounds_to_whole(c),
        a.finite(),
        size(amount_of_double(a)) <= 0x1000_0000_0000real,
    ensures
        size((a.round(c).to_int(c) as real) - amount_of_double(a)) <= 1real / 2real,
{
    lemma_pow2_pos(1074);
    let (u, uu, v) = (unit(), unit() as real, a.value());
    let x = amount_of_double(a);
    lemma_quotient(v as real, uu);
    assert(-(0x1000_0000_0000real * uu) <= x * uu <= 0x1000_0000_0000real * uu) by (nonlinear_arith)
        requires
            -0x1000_0000_0000real <= x <= 0x1000_0000_0000real,
            uu > 0real,
    ;
    assert(-(0x1000_0000_0000 * u) <= v <= 0x1000_0000_0000 * u);
    reveal(rounds_to_whole);
    let r = a.round(c);
    let (w, k) = (r.value(), r.value() / u);
    assert(w == k * u && -0x1000_0000_0001 <= k <= 0x1000_0000_0001) by (nonlinear_arith)
        requires
            k == w / u,
            w % u == 0,
            u > 0,
            -(0x1000_0000_0000 * u) - u <= w <= 0x1000_0000_0000 * u + u,
    ;
    assert(r.to_int(c) == k);
    lemma_counted(k, u);
    let kk = k as real;
    assert(2real * size(kk * uu - x * uu) <= uu);
    assert(size(kk - x) <= 1real / 2real) by (nonlinear_arith)
        requires
            2real * size(kk * uu - x * uu) <= uu,
            uu > 0real,
    ;
}

} // verus!
