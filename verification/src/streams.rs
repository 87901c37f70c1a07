//! What sounds and pictures that are read at another speed hold, with arithmetic that rounds to
//! nearest.
use crate::calc::{Calc, Op, Width};
use crate::num::{double, single, F32, F64};
use crate::playback::{bounce_at, bounce_frac, bounce_len, in_between, mono, moved_on, played_secs, rate_ratio, spanned, weighted, Resampler};
use crate::reals::{
    about, about_double, amount, amount_of_double, converts, kept_within, lemma_about_kept, lemma_about_less, lemma_about_less_double, lemma_about_over_double,
    lemma_about_plus, lemma_about_times, lemma_about_times_double, lemma_bounded, lemma_compared_double, lemma_constant, lemma_constant_double, lemma_constants,
    lemma_counted, lemma_counts, lemma_greater, lemma_greater_double, lemma_narrowed, lemma_order_double, lemma_quotient, lemma_widened, speck,
};
use crate::rounding::rounds;
use crate::rounding_double::{rounds_doubles, unit};
use crate::shades::weight;
use crate::spread::lemma_single_counts;
use crate::stretch::{crossed, gained, matching_gain, part_past, read_at, segment_at, smeared};
use vstd::arithmetic::power2::{lemma2_to64, lemma_pow2_adds, lemma_pow2_pos, pow2};
use vstd::prelude::*;

verus! {

proof fn lemma_unity()
    ensures
        double(0x3ff0_0000_0000_0000).finite(),
        amount_of_double(double(0x3ff0_0000_0000_0000)) == 1real,
{
    lemma2_to64();
    let unity = double(0x3ff0_0000_0000_0000);
    lemma_constant_double(0x3ff0_0000_0000_0000, 0x10_0000_0000_0000, 1023);
    lemma_pow2_adds(32, 20);
    assert(pow2(52) as real == 0x10_0000_0000_0000real);
    assert(amount_of_double(unity) * 0x10_0000_0000_0000real == 0x10_0000_0000_0000real);
}

/// A resampler takes as many input frames for an output frame as its rates say.
pub proof fn law_rates_set_the_step<K: Fn(Op, Width, u64, u64) -> u64>(c: &Calc<K>, from: u32, to: u32)
    requires
        rounds_doubles(c),
        1 <= from <= 0x10_0000,
        0x100 <= to <= 0x10_0000,
    ensures
        about_double(rate_ratio(c, from, to), (from as real) / (to as real), 1real / 0x20_0000_0000real),
{
    lemma_counts(c, from as u64);
    lemma_counts(c, to as u64);
    lemma_about_over_double(
        c,
        F64::of_count(c, from as u64),
        from as real,
        0real,
        F64::of_count(c, to as u64),
        256real,
        0x1000real,
        1real / 0x20_0000_0000real,
    );
}

/// Between two samples the output lies as far from the first as it is read behind it.
pub proof fn law_samples_are_joined<K: Fn(Op, Width, u64, u64) -> u64>(c: &Calc<K>, a: F32, b: F32, frac: F64)
    requires
        rounds(c),
        converts(c),
        a.finite() && -16real <= amount(a) <= 16real,
        b.finite() && -16real <= amount(b) <= 16real,
        frac.finite() && -1real <= amount_of_double(frac) <= 1real,
    ensures
        about(in_between(c, a, b, frac), amount(a) + (amount(b) - amount(a)) * amount_of_double(frac), 1real / 0x4000real),
{
    let u = 1real / 0x40_0000real;
    let (x, y, f) = (amount(a), amount(b), amount_of_double(frac));
    lemma_narrowed(c, frac, 1real);
    assert(speck() <= 1real);
    let g = frac.to_f32(c);
    assert(about(g, f, 2real * u));
    lemma_about_less(c, b, y, 0real, a, x, 0real, 32real, 34real * u);
    let d = b.sub(c, a);
    let dr = y - x;
    lemma_about_times(c, d, dr, 34real * u, 32real, g, f, 2real * u, 1real, 140real * u);
    lemma_about_plus(c, a, x, 0real, d.mul(c, g), dr * f, 140real * u, 48real, 200real * u);
}

/// The mono signal is the mean of both sides.
pub proof fn law_mono_is_the_mean<K: Fn(Op, Width, u64, u64) -> u64>(c: &Calc<K>, l: F32, r: F32)
    requires
        rounds(c),
        l.finite() && -16real <= amount(l) <= 16real,
        r.finite() && -16real <= amount(r) <= 16real,
    ensures
        about(mono(c, l, r), (amount(l) + amount(r)) / 2real, 1real / 0x1_0000real),
{
    let u = 1real / 0x40_0000real;
    lemma_constants();
    let half = single(0x3f00_0000);
    let (x, y) = (amount(l), amount(r));
    lemma_about_plus(c, l, x, 0real, r, y, 0real, 32real, 34real * u);
    let q = x + y;
    lemma_about_times(c, half, 1real / 2real, 0real, 1real / 2real, l.add(c, r), q, 34real * u, 32real, 40real * u);
    assert(1real / 2real * q == q / 2real);
}

/// A resampler puts out a frame for every step that fits before the next input frame, read
/// where it stands, and goes on from there.
pub proof fn law_resamplers_step_through<K: Fn(Op, Width, u64, u64) -> u64>(c: &Calc<K>, a: (F32, F32), b: (F32, F32), ratio: F64, frac: F64, k: u64)
    requires
        rounds_doubles(c),
        frac.finite(),
        k < u64::MAX,
    ensures
        amount_of_double(frac) >= 1real ==> spanned(c, a, b, ratio, frac, k) == (Seq::<F32>::empty(), frac),
        amount_of_double(frac) < 1real ==> ({
            let (out, last) = spanned(c, a, b, ratio, frac, k);
            let (rest, end) = spanned(c, a, b, ratio, frac.add(c, ratio), (k + 1) as u64);
            &&& out.len() == rest.len() + 2
            &&& out[0] == in_between(c, a.0, b.0, frac)
            &&& out[1] == in_between(c, a.1, b.1, frac)
            &&& out.skip(2) == rest
            &&& last == end
        }),
{
    lemma_unity();
    let unity = double(0x3ff0_0000_0000_0000);
    lemma_compared_double(frac, unity);
    if amount_of_double(frac) < 1real {
        let (out, last) = spanned(c, a, b, ratio, frac, k);
        let (rest, end) = spanned(c, a, b, ratio, frac.add(c, ratio), (k + 1) as u64);
        assert(out.skip(2) =~= rest);
    } else {
        assert(spanned(c, a, b, ratio, frac, k).0 =~= Seq::<F32>::empty());
    }
}

/// The next input frame is one whole frame further on.
pub proof fn law_input_frames_are_one_apart<K: Fn(Op, Width, u64, u64) -> u64>(c: &Calc<K>, s: Resampler, x: (F32, F32))
    requires
        rounds_doubles(c),
        ({
            let end = spanned(c, s.prev, x, s.ratio, s.frac, 0).1;
            end.finite() && 0real <= amount_of_double(end) <= 0x1000real
        }),
    ensures
        moved_on(c, s, x).0.prev == x,
        about_double(
            moved_on(c, s, x).0.frac,
            amount_of_double(spanned(c, s.prev, x, s.ratio, s.frac, 0).1) - 1real,
            1real / 0x40_0000_0000real,
        ),
{
    lemma_unity();
    let end = spanned(c, s.prev, x, s.ratio, s.frac, 0).1;
    lemma_about_less_double(c, end, amount_of_double(end), 0real, double(0x3ff0_0000_0000_0000), 1real, 0real, 0x1000real, 1real / 0x40_0000_0000real);
}

/// Frames that were played took their time at the rate of the device.
pub proof fn law_played_frames_take_their_time<K: Fn(Op, Width, u64, u64) -> u64>(c: &Calc<K>, frames: u64, device_rate: u32)
    requires
        rounds_doubles(c),
        frames < 0x100_0000_0000,
        0x100 <= device_rate <= 0x10_0000,
    ensures
        about_double(played_secs(c, frames, device_rate), (frames as real) / (device_rate as real), 1real / 0x1_0000real),
{
    lemma_counts(c, frames);
    lemma_counts(c, device_rate as u64);
    lemma_about_over_double(
        c,
        F64::of_count(c, frames),
        frames as real,
        0real,
        F64::of_count(c, device_rate as u64),
        256real,
        0x1_0000_0000real,
        1real / 0x1_0000real,
    );
}

/// A mix of two samples is as near to each as its weight says.
pub proof fn law_mixes_are_weighted<K: Fn(Op, Width, u64, u64) -> u64>(c: &Calc<K>, a: F32, b: F32, frac: F32)
    requires
        rounds(c),
        a.finite() && -16real <= amount(a) <= 16real,
        b.finite() && -16real <= amount(b) <= 16real,
        weight(frac),
    ensures
        about(weighted(c, a, b, frac), amount(a) * (1real - amount(frac)) + amount(b) * amount(frac), 1real / 0x4000real),
{
    let u = 1real / 0x40_0000real;
    lemma_constants();
    let unity = single(0x3f80_0000);
    let (x, y, f) = (amount(a), amount(b), amount(frac));
    lemma_about_less(c, unity, 1real, 0real, frac, f, 0real, 1real, 3real * u);
    let e = unity.sub(c, frac);
    let er = 1real - f;
    lemma_about_times(c, a, x, 0real, 16real, e, er, 3real * u, 1real, 70real * u);
    lemma_about_times(c, b, y, 0real, 16real, frac, f, 0real, 1real, 20real * u);
    lemma_bounded(x, 16real, er, 1real);
    lemma_bounded(y, 16real, f, 1real);
    lemma_about_plus(c, a.mul(c, e), x * er, 70real * u, b.mul(c, frac), y * f, 20real * u, 32real, 130real * u);
}

/// Sample `i` of a sound in another rate is read at as many samples in as the rates say.
pub proof fn law_bounces_read_by_the_rate<K: Fn(Op, Width, u64, u64) -> u64>(c: &Calc<K>, i: u64, ratio: F64)
    requires
        rounds_doubles(c),
        i < 0x1_0000_0000,
        ratio.finite() && 0real <= amount_of_double(ratio) <= 0x100real,
    ensures
        about_double(bounce_at(c, i, ratio), (i as real) * amount_of_double(ratio), 1real / 0x400real),
{
    lemma_counts(c, i);
    lemma_about_times_double(
        c,
        F64::of_count(c, i),
        i as real,
        0real,
        0x1_0000_0000real,
        ratio,
        amount_of_double(ratio),
        0real,
        0x100real,
        1real / 0x400real,
    );
}

/// Output and input of a stretch are matched in level: what comes out is multiplied by what
/// went in over what came out, up to eight times.
pub proof fn law_levels_are_matched<K: Fn(Op, Width, u64, u64) -> u64>(c: &Calc<K>, ri: F32, ro: F32)
    requires
        rounds(c),
        ri.finite() && 0real <= amount(ri) <= 1real,
        ro.finite() && 1real / 0x1000real <= amount(ro) <= 16real,
    ensures
        ({
            let want = amount(ri) / amount(ro);
            about(
                matching_gain(c, ri, ro),
                if want < 8real {
                    want
                } else {
                    8real
                },
                1real / 0x100real,
            )
        }),
{
    lemma2_to64();
    let eight = single(0x4100_0000);
    lemma_constant(0x4100_0000, 0x80_0000, 130);
    assert(pow2(20) as real == 0x10_0000real);
    assert(amount(eight) * 0x10_0000real == 0x80_0000real);
    crate::reals::lemma_about_over(c, ri, amount(ri), 0real, ro, 1real / 0x1000real, 0x1000real, 1real / 0x100real);
    lemma_greater(ri.div(c, ro), eight);
}

/// A sample is multiplied by the gain and kept within full scale.
pub proof fn law_gain_is_applied<K: Fn(Op, Width, u64, u64) -> u64>(c: &Calc<K>, s: F32, g: F32)
    requires
        rounds(c),
        s.finite() && -16real <= amount(s) <= 16real,
        g.finite() && 0real <= amount(g) <= 8real,
    ensures
        about(gained(c, s, g), kept_within(amount(s) * amount(g), -1real, 1real), 1real / 0x4000real),
{
    lemma_constants();
    let (x, y) = (amount(s), amount(g));
    lemma_about_times(c, s, x, 0real, 16real, g, y, 0real, 8real, 1real / 0x4000real);
    lemma_about_kept(s.mul(c, g), x * y, 1real / 0x4000real, single(0xbf80_0000), single(0x3f80_0000));
}

/// A slowed clip shows at each frame of its own, twelve a second, the source frame that the
/// factor puts there, up to the last.
pub proof fn law_slowed_clips_are_read_slowly<K: Fn(Op, Width, u64, u64) -> u64>(c: &Calc<K>, f: u64, factor: F64, fps: F32, last: u64)
    requires
        rounds_doubles(c),
        f < 0x1_0000,
        last < 0x1_0000_0000,
        factor.finite() && 1real / 4real <= amount_of_double(factor) <= 0x1000real,
        fps.finite() && 1real <= amount(fps) <= 0x100real,
    ensures
        ({
            let want = (f as real) / 12real / amount_of_double(factor) * amount(fps);
            about_double(
                read_at(c, f, factor, fps, last),
                if want < last as real {
                    want
                } else {
                    last as real
                },
                1real / 0x1_0000real,
            )
        }),
{
    lemma2_to64();
    let twelve = single(0x4140_0000);
    lemma_constant(0x4140_0000, 0xc0_0000, 130);
    assert(pow2(20) as real == 0x10_0000real);
    assert(amount(twelve) * 0x10_0000real == 0xc0_0000real);
    lemma_widened(c, twelve);
    lemma_widened(c, fps);
    lemma_counts(c, f);
    lemma_counts(c, last);
    let w = 1real / 0x10_0000_0000real;
    let (n, d) = (F64::of_count(c, f), twelve.to_f64(c));
    lemma_about_over_double(c, n, f as real, 0real, d, 12real, 0x2000real, w);
    let p = n.div(c, d);
    let pr = (f as real) / 12real;
    lemma_about_over_double(c, p, pr, w, factor, 1real / 4real, 0x8000real, 8real * w);
    let q = p.div(c, factor);
    let qr = pr / amount_of_double(factor);
    lemma_about_times_double(c, q, qr, 8real * w, 0x8000real, fps.to_f64(c), amount(fps), 0real, 0x100real, 0x2000real * w);
    lemma_greater_double(q.mul(c, fps.to_f64(c)), F64::of_count(c, last));
}

/// Between two frames a channel is as near to each as its weight says.
pub proof fn law_frames_are_crossed<K: Fn(Op, Width, u64, u64) -> u64>(c: &Calc<K>, a: u8, b: u8, frac: F32)
    requires
        rounds(c),
        weight(frac),
    ensures
        about(crossed(c, a, b, frac), (a as real) * (1real - amount(frac)) + (b as real) * amount(frac), 1real / 0x800real),
{
    let u = 1real / 0x40_0000real;
    lemma_constants();
    lemma_single_counts(c, a as u64);
    lemma_single_counts(c, b as u64);
    let unity = single(0x3f80_0000);
    let (m, n) = (F32::of_count(c, a as u64), F32::of_count(c, b as u64));
    let (x, y, f) = (a as real, b as real, amount(frac));
    lemma_about_less(c, unity, 1real, 0real, frac, f, 0real, 1real, 3real * u);
    let e = unity.sub(c, frac);
    let er = 1real - f;
    lemma_about_times(c, m, x, 0real, 255real, e, er, 3real * u, 1real, 1030real * u);
    lemma_about_times(c, n, y, 0real, 255real, frac, f, 0real, 1real, 260real * u);
    lemma_bounded(x, 255real, er, 1real);
    lemma_bounded(y, 255real, f, 1real);
    lemma_about_plus(c, m.mul(c, e), x * er, 1030real * u, n.mul(c, frac), y * f, 260real * u, 510real, 1900real * u);
}

/// A smeared channel keeps four fifths of what it had and takes in a fifth of the frame.
pub proof fn law_smears_take_in_a_fifth<K: Fn(Op, Width, u64, u64) -> u64>(c: &Calc<K>, acc: F32, x: F32)
    requires
        rounds(c),
        acc.finite() && -256real <= amount(acc) <= 256real,
        x.finite() && -256real <= amount(x) <= 256real,
    ensures
        about(smeared(c, acc, x), amount(acc) * (4real / 5real) + amount(x) / 5real, 1real / 0x400real),
{
    let u = 1real / 0x40_0000real;
    lemma_constants();
    lemma2_to64();
    let (unity, part) = (single(0x3f80_0000), single(0x3f4c_cccd));
    lemma_constant(0x3f4c_cccd, 0xcc_cccd, 126);
    assert(pow2(24) as real == 0x100_0000real);
    assert(amount(part) * 0x100_0000real == 0xcc_cccdreal);
    assert(about(part, 4real / 5real, u));
    let (a, b) = (amount(acc), amount(x));
    lemma_about_less(c, unity, 1real, 0real, part, 4real / 5real, u, 1real, 4real * u);
    let rest = unity.sub(c, part);
    assert(about(rest, 1real / 5real, 4real * u));
    lemma_about_times(c, acc, a, 0real, 256real, part, 4real / 5real, u, 1real, 520real * u);
    lemma_about_times(c, x, b, 0real, 256real, rest, 1real / 5real, 4real * u, 1real, 1290real * u);
    assert(b * (1real / 5real) == b / 5real);
    lemma_about_plus(c, acc.mul(c, part), a * (4real / 5real), 520real * u, x.mul(c, rest), b / 5real, 1290real * u, 512real, 2400real * u);
}

/// The whole part of a double that is not negative.
proof fn lemma_floor_size_double<K: Fn(Op, Width, u64, u64) -> u64>(c: &Calc<K>, p: F64)
    requires
        rounds_doubles(c),
        p.finite(),
        0real <= amount_of_double(p) <= 0x7fff_0000real,
    ensures
        (p.to_size(c) as real) <= amount_of_double(p) < (p.to_size(c) as real) + 1real,
{
    lemma_pow2_pos(1074);
    let (u, uu, v, x) = (unit(), unit() as real, p.value(), amount_of_double(p));
    lemma_order_double(F64 { bits: 0 }, p);
    assert(crate::num::double_value(0) == 0);
    lemma_quotient(v as real, uu);
    let (k, m) = (v / u, v % u);
    assert(v == k * u + m && 0 <= m < u && k >= 0) by (nonlinear_arith)
        requires
            k == v / u,
            m == v % u,
            u > 0,
            v >= 0,
    ;
    lemma_counted(k, u);
    let (kk, mm) = (k as real, m as real);
    assert(kk <= x < kk + 1real) by (nonlinear_arith)
        requires
            x * uu == kk * uu + mm,
            0real <= mm < uu,
            uu > 0real,
    ;
    assert(k <= 0x7fff_0000);
    crate::rounding_double::lemma_truncated(c, p);
}

/// A sound in another rate is as long as before: as many samples as the rates say, rounded
/// down.
pub proof fn law_bounces_keep_their_time<K: Fn(Op, Width, u64, u64) -> u64>(c: &Calc<K>, len: u64, ratio: F64)
    requires
        rounds_doubles(c),
        len <= 0x400_0000,
        ratio.finite() && 1real / 16real <= amount_of_double(ratio) <= 16real,
    ensures
        ({
            let want = (len as real) / amount_of_double(ratio);
            want - 1real - 1real / 0x1000real <= bounce_len(c, len, ratio) as real <= want + 1real / 0x1000real
        }),
{
    lemma_counts(c, len);
    let n = F64::of_count(c, len);
    lemma_about_over_double(c, n, len as real, 0real, ratio, 1real / 16real, 0x4000_0000real, 1real / 0x1000real);
    lemma_not_negative(c, n, ratio);
    lemma_floor_size_double(c, n.div(c, ratio));
}

/// A quotient of what is not negative is not negative.
proof fn lemma_not_negative<K: Fn(Op, Width, u64, u64) -> u64>(c: &Calc<K>, x: F64, y: F64)
    requires
        rounds_doubles(c),
        x.finite() && 0real <= amount_of_double(x) <= 0x1_0000_0000real,
        y.finite() && 1real / 0x1_0000real <= amount_of_double(y),
    ensures
        amount_of_double(x.div(c, y)) >= 0real,
        x.div(c, y).finite(),
{
    lemma_order_double(F64 { bits: 0 }, x);
    lemma_order_double(F64 { bits: 0 }, y);
    assert(crate::num::double_value(0) == 0);
    let (a, b) = (amount_of_double(x), amount_of_double(y));
    lemma_quotient(a, b);
    let q = a / b;
    assert(0real <= q <= 0x1_0000_0000_0000real) by (nonlinear_arith)
        requires
            q * b == a,
            0real <= a <= 0x1_0000_0000real,
            b >= 1real / 0x1_0000real,
    ;
    crate::reals::lemma_over_double(c, x, y);
    crate::seen::lemma_double_sign(c, x, y);
}

/// Segment `seg` of a stretch is read as far in as half a window for each segment before it,
/// shortened by the factor.
pub proof fn law_segments_are_read_slowly<K: Fn(Op, Width, u64, u64) -> u64>(c: &Calc<K>, seg: u64, half: u64, factor: F64)
    requires
        rounds_doubles(c),
        seg <= 0x1_0000,
        1 <= half <= 0x1000,
        factor.finite() && 1real <= amount_of_double(factor) <= 0x1000real,
    ensures
        ({
            let want = (seg as real) * ((half as real) / amount_of_double(factor));
            want - 1real - 1real / 0x1000real <= segment_at(c, seg, half, factor) as real <= want + 1real / 0x1000real
        }),
{
    lemma_counts(c, seg);
    lemma_counts(c, half);
    let (n, h) = (F64::of_count(c, seg), F64::of_count(c, half));
    lemma_about_over_double(c, h, half as real, 0real, factor, 1real, 0x1000real, 1real / 0x10_0000_0000real);
    let q = h.div(c, factor);
    let qr = (half as real) / amount_of_double(factor);
    lemma_about_times_double(c, n, seg as real, 0real, 0x1_0000real, q, qr, 1real / 0x10_0000_0000real, 0x1000real, 1real / 0x1000real);
    lemma_quotient(half as real, amount_of_double(factor));
    assert(qr >= 1real / 0x1000real) by (nonlinear_arith)
        requires
            qr * amount_of_double(factor) == half as real,
            half as real >= 1real,
            1real <= amount_of_double(factor) <= 0x1000real,
    ;
    let p = n.mul(c, q);
    lemma_product_sign(c, n, q);
    lemma_floor_size_double(c, p);
}

/// A product of what is not negative is not negative.
proof fn lemma_product_sign<K: Fn(Op, Width, u64, u64) -> u64>(c: &Calc<K>, x: F64, y: F64)
    requires
        rounds_doubles(c),
        x.finite() && 0real <= amount_of_double(x) <= 0x1000_0000real,
        y.finite() && 1real / 0x1_0000real <= amount_of_double(y) <= 0x1000_0000real,
        amount_of_double(x) == 0real || amount_of_double(x) >= 1real,
    ensures
        amount_of_double(x.mul(c, y)) >= 0real,
{
    let (a, b) = (amount_of_double(x), amount_of_double(y));
    assert(0real <= a * b <= 0x100_0000_0000_0000real && (a == 0real ==> a * b == 0real) && (a >= 1real ==> a * b >= b)) by (nonlinear_arith)
        requires
            0real <= a <= 0x1000_0000real,
            0real <= b <= 0x1000_0000real,
    ;
    crate::reals::lemma_times_double(c, x, y);
    if a == 0real {
        crate::reals::lemma_exactly_double(c, x, y, x);
    } else {
        assert(speck() <= 1real / 0x1_0000_0000real);
    }
}

/// The part of a frame that a place is past it.
pub proof fn law_places_are_between_frames<K: Fn(Op, Width, u64, u64) -> u64>(c: &Calc<K>, at: F64, i0: u64)
    requires
        rounds_doubles(c),
        converts(c),
        i0 < 0x1000_0000,
        at.finite() && i0 as real <= amount_of_double(at) <= i0 as real + 1real,
    ensures
        about(part_past(c, at, i0), amount_of_double(at) - (i0 as real), 1real / 0x10_0000real),
        about(bounce_frac(c, at, i0), amount_of_double(at) - (i0 as real), 1real / 0x10_0000real),
{
    lemma_counts(c, i0);
    let n = F64::of_count(c, i0);
    let d = amount_of_double(at) - (i0 as real);
    lemma_about_less_double(c, at, amount_of_double(at), 0real, n, i0 as real, 0real, 1real, 1real / 0x1000_0000real);
    lemma_narrowed(c, at.sub(c, n), 2real);
    assert(speck() <= 1real);
}

} // verus!
