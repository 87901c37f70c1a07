//! How beats, seconds, samples and frames relate, and what faders and automation make of a
//! level on the way, with arithmetic that rounds to nearest.
use crate::auto::{between, in_order, lane_value, value_from, AutoPoint};
use crate::calc::{Calc, Op, Width};
use crate::num::{double, single, F32, F64};
use crate::reals::{
    about, about_double, amount, amount_of_double, converts, kept_within, lemma_about_kept, lemma_about_less, lemma_about_less_double, lemma_about_over_double,
    lemma_about_plus, lemma_about_plus_double, lemma_about_times, lemma_about_times_double, lemma_constant, lemma_constant_double, lemma_constants, lemma_counts,
    lemma_greater, lemma_greater_double, lemma_narrowed, lemma_quotient, lemma_widened, size,
};
use crate::render::{beat_secs, frame_time, leveled, sample_beat, summed, time_beat, window};
use crate::rounding::rounds;
use crate::rounding_double::rounds_doubles;
use crate::timeline::{beats_of_secs, level_opacity, secs_of_beats, Track};
use vstd::arithmetic::power2::{lemma2_to64, lemma_pow2_adds, pow2};
use vstd::prelude::*;

verus! {

/// Whether a tempo is an ordinary one: from one beat a minute to 2^12.
pub open spec fn tempo(bpm: F64) -> bool {
    bpm.finite() && 1real <= amount_of_double(bpm) <= 0x1000real
}

proof fn lemma_sixty()
    ensures
        double(0x404e_0000_0000_0000).finite(),
        amount_of_double(double(0x404e_0000_0000_0000)) == 60real,
{
    lemma_constant_double(0x404e_0000_0000_0000, 0x1e_0000_0000_0000, 1028);
    lemma2_to64();
    lemma_pow2_adds(32, 15);
    assert(pow2(47) as real == 0x8000_0000_0000real);
    assert(amount_of_double(double(0x404e_0000_0000_0000)) * 0x8000_0000_0000real == 0x1e_0000_0000_0000real);
}

/// A minute has as many beats as the tempo says.
pub proof fn law_beats_take_a_minute_together<K: Fn(Op, Width, u64, u64) -> u64>(c: &Calc<K>, bpm: F64, beats: F64)
    requires
        rounds_doubles(c),
        tempo(bpm),
        beats.finite() && size(amount_of_double(beats)) <= 0x10_0000real,
    ensures
        size(amount_of_double(secs_of_beats(c, bpm, beats)) * amount_of_double(bpm) - 60real * amount_of_double(beats)) <= 1real
            / 0x400real,
        secs_of_beats(c, bpm, beats).finite(),
        size(amount_of_double(beat_secs(c, bpm)) * amount_of_double(bpm) - 60real) <= 1real / 0x1000real,
{
    lemma_sixty();
    let minute = double(0x404e_0000_0000_0000);
    let (b, k) = (amount_of_double(beats), amount_of_double(bpm));
    let e = 1real / 0x100_0000real;
    lemma_about_times_double(c, beats, b, 0real, 0x10_0000real, minute, 60real, 0real, 60real, e);
    let p = beats.mul(c, minute);
    assert(b * 60real == 60real * b);
    lemma_about_over_double(c, p, 60real * b, e, bpm, 1real, 0x400_0000real, 4real * e);
    lemma_back(60real * b, k, amount_of_double(p.div(c, bpm)), 4real * e);
    lemma_about_over_double(c, minute, 60real, 0real, bpm, 1real, 64real, e);
    lemma_back(60real, k, amount_of_double(minute.div(c, bpm)), e);
}

/// What is about a quotient is, times the divisor, about what was divided.
proof fn lemma_back(r: real, k: real, q: real, e: real)
    requires
        1real <= k <= 0x1000real,
        -e <= q - r / k <= e,
        0real <= e <= 1real / 0x40_0000real,
    ensures
        size(q * k - r) <= 1real / 0x400real,
        e <= 1real / 0x100_0000real ==> size(q * k - r) <= 1real / 0x1000real,
{
    lemma_quotient(r, k);
    let (s, d) = (r / k, q - r / k);
    assert(q * k - r == d * k) by (nonlinear_arith)
        requires
            d == q - s,
            s * k == r,
    ;
    assert(size(d * k) <= 0x1000real * e) by (nonlinear_arith)
        requires
            -e <= d <= e,
            1real <= k <= 0x1000real,
    ;
}

/// Seconds turned into beats are as many as they are minutes, times the tempo.
pub proof fn law_seconds_count_beats<K: Fn(Op, Width, u64, u64) -> u64>(c: &Calc<K>, bpm: F64, secs: F64)
    requires
        rounds_doubles(c),
        tempo(bpm),
        secs.finite() && size(amount_of_double(secs)) <= 0x10_0000real,
    ensures
        about_double(beats_of_secs(c, bpm, secs), amount_of_double(secs) * amount_of_double(bpm) / 60real, 1real / 0x10_0000real),
        about_double(time_beat(c, bpm, secs), amount_of_double(secs) * amount_of_double(bpm) / 60real, 1real / 0x10_0000real),
{
    lemma_sixty();
    let minute = double(0x404e_0000_0000_0000);
    let (s, k) = (amount_of_double(secs), amount_of_double(bpm));
    let e = 1real / 0x4_0000real;
    lemma_about_times_double(c, secs, s, 0real, 0x10_0000real, bpm, k, 0real, 0x1000real, e);
    lemma_about_over_double(c, secs.mul(c, bpm), s * k, e, minute, 60real, 0x1000_0000real, 1real / 0x10_0000real);
}

/// Frames follow one another at the frame rate, from where the window starts.
pub proof fn law_frames_keep_their_rate<K: Fn(Op, Width, u64, u64) -> u64>(c: &Calc<K>, fps: F32, t0: F64, i: u64)
    requires
        rounds_doubles(c),
        fps.finite() && 1real <= amount(fps) <= 0x1000real,
        t0.finite() && size(amount_of_double(t0)) <= 0x10_0000real,
        i <= 0x100_0000,
    ensures
        about_double(frame_time(c, fps, t0, i), amount_of_double(t0) + (i as real) / amount(fps), 1real / 0x10_0000real),
{
    lemma_counts(c, i);
    lemma_widened(c, fps);
    let n = F64::of_count(c, i);
    let e = 1real / 0x100_0000real;
    lemma_about_over_double(c, n, i as real, 0real, fps.to_f64(c), 1real, 0x100_0000real, e);
    lemma_about_plus_double(
        c,
        t0,
        amount_of_double(t0),
        0real,
        n.div(c, fps.to_f64(c)),
        i as real / amount(fps),
        e,
        0x200_0000real,
        2real * e,
    );
}

/// A sample's beat is its time, turned into beats.
pub proof fn law_samples_count_beats<K: Fn(Op, Width, u64, u64) -> u64>(c: &Calc<K>, bpm: F64, rate: u32, t0: F64, i: u64)
    requires
        rounds_doubles(c),
        tempo(bpm),
        1 <= rate <= 0x10_0000,
        t0.finite() && size(amount_of_double(t0)) <= 0x1_0000real,
        i <= 0x1_0000 * rate,
    ensures
        about_double(
            sample_beat(c, bpm, rate, t0, i),
            (amount_of_double(t0) + (i as real) / (rate as real)) * (amount_of_double(bpm) / 60real),
            1real / 0x4000real,
        ),
{
    lemma_sixty();
    lemma_counts(c, i);
    lemma_counts(c, rate as u64);
    let (n, r) = (F64::of_count(c, i), F64::of_count(c, rate as u64));
    let (k, m) = (i as real, rate as real);
    let e = 1real / 0x1_0000_0000real;
    assert(-(0x1_0000real * m) <= k <= 0x1_0000real * m);
    lemma_per_sample(m, e);
    lemma_about_over_double(c, n, k, 0real, r, m, 0x1_0000real, e);
    let q = n.div(c, r);
    lemma_about_plus_double(c, t0, amount_of_double(t0), 0real, q, k / m, e, 0x2_0000real, 2real * e);
    let t = t0.add(c, q);
    let minute = double(0x404e_0000_0000_0000);
    let b = amount_of_double(bpm);
    lemma_about_over_double(c, bpm, b, 0real, minute, 60real, 0x1000real, e);
    lemma_about_times_double(
        c,
        t,
        amount_of_double(t0) + k / m,
        2real * e,
        0x2_0000real,
        bpm.div(c, minute),
        b / 60real,
        e,
        0x1000real,
        1real / 0x4000real,
    );
}

proof fn lemma_per_sample(m: real, e: real)
    requires
        m >= 1real,
        e == 1real / 0x1_0000_0000real,
    ensures
        ((2real * 0x1_0000real + 1real) / 0x8_0000_0000_0000real) * m + 0real <= e * m,
        0real <= 0x1_0000real * m,
{
    let k = (2real * 0x1_0000real + 1real) / 0x8_0000_0000_0000real;
    assert(k * m <= e * m) by (nonlinear_arith)
        requires
            k <= e,
            m >= 1real,
    ;
}

// ----------------------------------------------------------------- automation

/// Between two points an automated value goes evenly from the one to the other: as far as the
/// beat has gone.
pub proof fn law_automation_goes_evenly<K: Fn(Op, Width, u64, u64) -> u64>(c: &Calc<K>, a: AutoPoint, b: AutoPoint, beat: F64)
    requires
        rounds_doubles(c),
        a.beat.finite() && size(amount_of_double(a.beat)) <= 0x1_0000real,
        b.beat.finite() && size(amount_of_double(b.beat)) <= 0x1_0000real,
        beat.finite() && amount_of_double(a.beat) <= amount_of_double(beat) <= amount_of_double(b.beat),
        amount_of_double(b.beat) - amount_of_double(a.beat) >= 1real / 0x100real,
        a.value.finite() && size(amount_of_double(a.value)) <= 0x1000real,
        b.value.finite() && size(amount_of_double(b.value)) <= 0x1000real,
    ensures
        ({
            let part = (amount_of_double(beat) - amount_of_double(a.beat)) / (amount_of_double(b.beat) - amount_of_double(a.beat));
            &&& 0real <= part <= 1real
            &&& about_double(
                between(c, a, b, beat),
                amount_of_double(a.value) + (amount_of_double(b.value) - amount_of_double(a.value)) * part,
                1real / 0x100real,
            )
        }),
{
    let (x, y, t) = (amount_of_double(a.beat), amount_of_double(b.beat), amount_of_double(beat));
    let (v, w) = (amount_of_double(a.value), amount_of_double(b.value));
    let e = 0x2_0002real / 0x8_0000_0000_0000real;
    lemma_about_less_double(c, b.beat, y, 0real, a.beat, x, 0real, 0x2_0000real, e);
    lemma_about_less_double(c, beat, t, 0real, a.beat, x, 0real, 0x2_0000real, e);
    let (span, gone) = (b.beat.sub(c, a.beat), beat.sub(c, a.beat));
    let least = double(0x3d71_9799_812d_ea11);
    lemma_tiny();
    lemma_greater_double(span, least);
    let s = amount_of_double(span);
    assert(span.max(least).finite() && amount_of_double(span.max(least)) == s);
    let (d, n) = (t - x, y - x);
    lemma_quotient(d, n);
    lemma_quotient(d, s);
    let (p, q) = (d / n, d / s);
    assert(0real <= p <= 1real) by (nonlinear_arith)
        requires
            p * n == d,
            0real <= d <= n,
            n > 0real,
    ;
    assert(s >= 1real / 0x200real);
    assert(0real <= q <= 2real) by (nonlinear_arith)
        requires
            q * s == d,
            0real <= d <= 2real * s,
            s > 0real,
    ;
    lemma_parts_agree(d, s, n, p, q, e);
    lemma_part_error(s, e);
    lemma_about_over_double(c, gone, d, e, span.max(least), s, 2real, 1real / 0x100_0000real);
    let r = gone.div(c, span.max(least));
    assert(about_double(r, p, 1real / 0x40_0000real));
    let f = 1real / 0x1000_0000real;
    lemma_about_less_double(c, b.value, w, 0real, a.value, v, 0real, 0x2000real, f);
    let g = b.value.sub(c, a.value);
    lemma_about_times_double(c, g, w - v, f, 0x2000real, r, p, 1real / 0x40_0000real, 1real, 1real / 0x180real);
    lemma_about_plus_double(c, a.value, v, 0real, g.mul(c, r), (w - v) * p, 1real / 0x180real, 0x4000real, 1real / 0x100real);
}

/// Dividing by a span that is off by a little.
proof fn lemma_parts_agree(d: real, s: real, n: real, p: real, q: real, e: real)
    requires
        q * s == d,
        p * n == d,
        0real <= q <= 2real,
        -e <= s - n <= e,
        e == 0x2_0002real / 0x8_0000_0000_0000real,
        n >= 1real / 0x100real,
    ensures
        -1real / 0x80_0000real <= q - p <= 1real / 0x80_0000real,
{
    let (f, g) = (q - p, s - n);
    assert(f * n == -(q * g)) by (nonlinear_arith)
        requires
            f == q - p,
            g == s - n,
            q * s == d,
            p * n == d,
    ;
    crate::reals::lemma_bounded(q, 2real, g, e);
    assert(-(2real * e) <= q * g <= 2real * e);
    assert(-(512real * e) <= f <= 512real * e) by (nonlinear_arith)
        requires
            f * n == -(q * g),
            -(2real * e) <= q * g <= 2real * e,
            n >= 1real / 256real,
            e > 0real,
    ;
}

proof fn lemma_part_error(s: real, e: real)
    requires
        s >= 1real / 0x200real,
        e == 0x2_0002real / 0x8_0000_0000_0000real,
    ensures
        ((2real * 2real + 1real) / 0x8_0000_0000_0000real) * s + e <= (1real / 0x100_0000real) * s,
        0real <= e <= 2real * s,
{
    let (k, f) = ((2real * 2real + 1real) / 0x8_0000_0000_0000real, 1real / 0x100_0000real);
    assert(k * s + e <= f * s) by (nonlinear_arith)
        requires
            s >= 1real / 0x200real,
            k == 5real / 0x8_0000_0000_0000real,
            f == 1real / 0x100_0000real,
            e == 0x2_0002real / 0x8_0000_0000_0000real,
    ;
}

proof fn lemma_tiny()
    ensures
        double(0x3d71_9799_812d_ea11).finite(),
        0real < amount_of_double(double(0x3d71_9799_812d_ea11)) <= 1real / 0x100_0000real,
{
    lemma_constant_double(0x3d71_9799_812d_ea11, 0x11_9799_812d_ea11, 983);
    lemma2_to64();
    lemma_pow2_adds(64, 28);
    assert(pow2(92) as real == 0x1000_0000_0000_0000_0000_0000real);
    assert(amount_of_double(double(0x3d71_9799_812d_ea11)) * 0x1000_0000_0000_0000_0000_0000real == 0x11_9799_812d_ea11real);
}

/// A lane has the value that lies between the two points around the beat.
pub proof fn law_lanes_join_their_points<K: Fn(Op, Width, u64, u64) -> u64>(c: &Calc<K>, points: Seq<AutoPoint>, beat: F64, i: int)
    requires
        in_order(points),
        0 <= i,
        i + 1 < points.len(),
        points[i].beat.lt(beat),
        beat.lt(points[i + 1].beat),
    ensures
        lane_value(c, points, beat) == Some(between(c, points[i], points[i + 1], beat)),
{
    let last = points.len() - 1;
    assert(points[0].beat.le(points[i].beat));
    assert(points[i + 1].beat.le(points[last].beat));
    lemma_found(c, points, beat, i, 0);
}

proof fn lemma_found<K: Fn(Op, Width, u64, u64) -> u64>(c: &Calc<K>, points: Seq<AutoPoint>, beat: F64, i: int, k: int)
    requires
        in_order(points),
        0 <= k <= i,
        i + 1 < points.len(),
        points[i].beat.lt(beat),
        beat.lt(points[i + 1].beat),
    ensures
        value_from(c, points, beat, k) == between(c, points[i], points[i + 1], beat),
    decreases i - k,
{
    if k < i {
        assert(points[k + 1].beat.le(points[i].beat));
        lemma_found(c, points, beat, i, k + 1);
    }
}

// --------------------------------------------------------------------- levels

/// A track without automation is as loud as its fader says, and no fader is below silence.
pub proof fn law_faders_set_the_level<K: Fn(Op, Width, u64, u64) -> u64>(c: &Calc<K>, track: Track, beat: F64)
    requires
        track.level_points@.len() == 0,
        track.level.finite(),
    ensures
        track.level_on(c, beat).finite(),
        amount(track.level_on(c, beat)) == if amount(track.level) < 0real {
            0real
        } else {
            amount(track.level)
        },
{
    lemma_constants();
    lemma_greater(track.level, single(0));
}

/// A track with automation is as loud as its lane says at the beat.
pub proof fn law_automated_levels<K: Fn(Op, Width, u64, u64) -> u64>(c: &Calc<K>, track: Track, beat: F64, v: F64)
    requires
        converts(c),
        lane_value(c, track.level_points@, beat) == Some(v),
        v.finite() && size(amount_of_double(v)) <= 16real,
    ensures
        about(
            track.level_on(c, beat),
            if amount_of_double(v) < 0real {
                0real
            } else {
                amount_of_double(v)
            },
            1real / 0x1_0000real,
        ),
{
    lemma_constants();
    lemma_narrowed(c, v, 16real);
    lemma_greater(v.to_f32(c), single(0));
}

/// A track is added to the master, every sample times the level at its beat.
pub proof fn law_tracks_are_added_at_their_level<K: Fn(Op, Width, u64, u64) -> u64>(c: &Calc<K>, master: Seq<F32>, bus: Seq<F32>, track: Track, bpm: F64, rate: u32, t0: F64, i: int)
    requires
        rounds(c),
        0 <= i < master.len(),
        master[i].finite() && size(amount(master[i])) <= 1024real,
        bus[i].finite() && size(amount(bus[i])) <= 1024real,
        ({
            let level = track.level_on(c, sample_beat(c, bpm, rate, t0, i as u64));
            level.finite() && size(amount(level)) <= 16real
        }),
    ensures
        leveled(c, master, bus, track, bpm, rate, t0).len() == master.len(),
        about(
            leveled(c, master, bus, track, bpm, rate, t0)[i],
            amount(master[i]) + amount(bus[i]) * amount(track.level_on(c, sample_beat(c, bpm, rate, t0, i as u64))),
            1real / 0x40real,
        ),
{
    let u = 1real / 0x40_0000real;
    let level = track.level_on(c, sample_beat(c, bpm, rate, t0, i as u64));
    let (m, b) = (master[i], bus[i]);
    lemma_about_times(c, b, amount(b), 0real, 1024real, level, amount(level), 0real, 16real, 16400real * u);
    lemma_about_plus(c, m, amount(m), 0real, b.mul(c, level), amount(b) * amount(level), 16400real * u, 18000real, 35000real * u);
}

/// Two buses are added sample by sample.
pub proof fn law_buses_add_up<K: Fn(Op, Width, u64, u64) -> u64>(c: &Calc<K>, a: Seq<F32>, b: Seq<F32>, i: int)
    requires
        rounds(c),
        0 <= i < a.len(),
        a[i].finite() && size(amount(a[i])) <= 1024real,
        b[i].finite() && size(amount(b[i])) <= 1024real,
    ensures
        summed(c, a, b).len() == a.len(),
        about(summed(c, a, b)[i], amount(a[i]) + amount(b[i]), 1real / 0x400real),
{
    lemma_about_plus(c, a[i], amount(a[i]), 0real, b[i], amount(b[i]), 0real, 2048real, 1real / 0x400real);
}

/// A track is as opaque as its level, as far as the two are linked: not linked at all it is
/// opaque, and it is never more than opaque.
pub proof fn law_levels_set_the_opacity<K: Fn(Op, Width, u64, u64) -> u64>(c: &Calc<K>, level: F32, link: F32)
    requires
        rounds(c),
        level.finite() && size(amount(level)) <= 16real,
        link.finite() && size(amount(link)) <= 1real,
    ensures
        ({
            let l = if amount(level) < 3real / 2real {
                amount(level)
            } else {
                3real / 2real
            };
            about(
                level_opacity(c, level, link),
                kept_within(1real + (l - 1real) * amount(link), 0real, 1real),
                1real / 0x1_0000real,
            )
        }),
{
    let u = 1real / 0x40_0000real;
    lemma_constants();
    lemma2_to64();
    let (zero, unity, top) = (single(0), single(0x3f80_0000), single(0x3fc0_0000));
    lemma_constant(0x3fc0_0000, 0xc0_0000, 127);
    assert(pow2(23) as real == 0x80_0000real);
    assert(amount(top) * 0x80_0000real == 0xc0_0000real);
    lemma_greater(level, top);
    let l = level.lesser(top);
    let (v, k) = (amount(l) - 1real, amount(link));
    lemma_about_less(c, l, amount(l), 0real, unity, 1real, 0real, 17real, 18real * u);
    let a = l.sub(c, unity);
    lemma_about_times(c, a, v, 18real * u, 17real, link, k, 0real, 1real, 37real * u);
    let b = a.mul(c, link);
    lemma_about_plus(c, unity, 1real, 0real, b, v * k, 37real * u, 18real, 57real * u);
    lemma_about_kept(unity.add(c, b), 1real + v * k, 57real * u, zero, unity);
}

/// A window starts at its first beat and lasts until its last, and a thousandth of a beat at
/// least.
pub proof fn law_windows_span_their_beats<K: Fn(Op, Width, u64, u64) -> u64>(c: &Calc<K>, bpm: F64, from_beat: F64, to_beat: F64)
    requires
        rounds_doubles(c),
        tempo(bpm),
        from_beat.finite() && size(amount_of_double(from_beat)) <= 0x1_0000real,
        to_beat.finite() && size(amount_of_double(to_beat)) <= 0x1_0000real,
        amount_of_double(from_beat) + 1real / 0x100real <= amount_of_double(to_beat),
    ensures
        ({
            let (t0, len) = window(c, bpm, from_beat, to_beat);
            let (a, b, k) = (amount_of_double(from_beat), amount_of_double(to_beat), amount_of_double(bpm));
            &&& t0.finite() && len.finite()
            &&& size(amount_of_double(t0) * k - 60real * a) <= 1real / 0x400real
            &&& size(amount_of_double(len) * k - 60real * (b - a)) <= 1real / 0x40real
        }),
{
    let few = double(0x3f50_624d_d2f1_a9fc);
    lemma_constant_double(0x3f50_624d_d2f1_a9fc, 0x10_624d_d2f1_a9fc, 1013);
    lemma2_to64();
    lemma_pow2_adds(32, 30);
    assert(pow2(62) as real == 0x4000_0000_0000_0000real);
    assert(amount_of_double(few) * 0x4000_0000_0000_0000real == 0x10_624d_d2f1_a9fcreal);
    let (a, b, k) = (amount_of_double(from_beat), amount_of_double(to_beat), amount_of_double(bpm));
    lemma_about_plus_double(c, from_beat, a, 0real, few, amount_of_double(few), 0real, 0x2_0000real, 1real / 0x100_0000real);
    let m = from_beat.add(c, few);
    lemma_greater_double(to_beat, m);
    assert(to_beat.max(m).finite() && amount_of_double(to_beat.max(m)) == b);
    law_beats_take_a_minute_together(c, bpm, from_beat);
    law_beats_take_a_minute_together(c, bpm, to_beat.max(m));
    let (t0, t1) = (secs_of_beats(c, bpm, from_beat), secs_of_beats(c, bpm, to_beat.max(m)));
    let (x, y) = (amount_of_double(t0), amount_of_double(t1));
    assert(-0x40_0000real <= x <= 0x40_0000real && -0x40_0000real <= y <= 0x40_0000real) by (nonlinear_arith)
        requires
            size(x * k - 60real * a) <= 1real,
            size(y * k - 60real * b) <= 1real,
            k >= 1real,
            -0x1_0000real <= a <= 0x1_0000real,
            -0x1_0000real <= b <= 0x1_0000real,
    ;
    lemma_about_less_double(c, t1, y, 0real, t0, x, 0real, 0x80_0000real, 1real / 0x800_0000real);
    let d = amount_of_double(t1.sub(c, t0)) - (y - x);
    assert(size(d * k) <= 1real / 0x8000real) by (nonlinear_arith)
        requires
            -1real / 0x800_0000real <= d <= 1real / 0x800_0000real,
            1real <= k <= 0x1000real,
    ;
    let l = amount_of_double(t1.sub(c, t0));
    assert(l * k == y * k - x * k + d * k) by (nonlinear_arith)
        requires
            d == l - (y - x),
    ;
}

} // verus!
