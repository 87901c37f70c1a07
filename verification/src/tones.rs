//! What the built-in sources are made of, with arithmetic that rounds to nearest: tones, noise,
//! and the trace that shows them.
use crate::audio::{edge_env, sample_time, samples_in, sine_sample};
use crate::calc::{Calc, Op, Width};
use crate::dsp::drawn_centred;
use crate::echoes::{lemma_floor_size, lemma_product_not_negative};
use crate::num::{single, F32};
use crate::reals::{
    about, amount, kept_within, lemma_about_kept, lemma_about_less, lemma_about_over, lemma_about_plus, lemma_about_times, lemma_bounded, lemma_compared, lemma_constant,
    lemma_constants, lemma_greater, lemma_minus, size,
};
use crate::rounding::rounds;
use crate::saved::drops_fractions;
use crate::seen::lemma_wave_amounts;
use crate::shades::{lemma_byte, weight};
use crate::spread::lemma_single_counts;
use crate::synth::{
    bin_hz, browned, coloured, fm_sample, index_at, lit, low_passed, modulator_step, noise_level, noise_next, phase_after, phase_step, pink_of, scope_bright, trace_glow,
    trace_y, NoiseState, CENTROID_N,
};
use crate::washes::waves_stay_in_range;
use vstd::arithmetic::power2::{lemma2_to64, pow2};
use vstd::prelude::*;

verus! {

/// A full turn as singles have it.
proof fn lemma_turn()
    ensures
        single(0x40c9_0fdb).finite(),
        amount(single(0x40c9_0fdb)) == crate::filters::turn(),
{
    lemma2_to64();
    lemma_constant(0x40c9_0fdb, 0xc9_0fdb, 129);
    assert(pow2(21) as real == 0x20_0000real);
    assert(amount(single(0x40c9_0fdb)) * 0x20_0000real == 0xc9_0fdbreal);
}

/// Samples follow one another at the rate.
pub proof fn law_samples_keep_their_rate<K: Fn(Op, Width, u64, u64) -> u64>(c: &Calc<K>, i: u64, sample_rate: u32)
    requires
        rounds(c),
        1 <= sample_rate <= 0x10_0000,
        i < 0x100_0000,
        i <= 4 * sample_rate,
    ensures
        about(sample_time(c, i, sample_rate), (i as real) / (sample_rate as real), 1real / 0x4_0000real),
        0real <= (i as real) / (sample_rate as real) <= 4real,
{
    lemma_single_counts(c, i);
    lemma_single_counts(c, sample_rate as u64);
    let (n, r) = (F32::of_count(c, i), F32::of_count(c, sample_rate as u64));
    let (k, m) = (i as real, sample_rate as real);
    let w = (2real * 4real + 1real) / 0x40_0000real;
    assert(w * m + 0real <= (1real / 0x4_0000real) * m) by (nonlinear_arith)
        requires
            w == 9real / 0x40_0000real,
            m >= 1real,
    ;
    lemma_about_over(c, n, k, 0real, r, m, 4real, 1real / 0x4_0000real);
    crate::reals::lemma_quotient(k, m);
    let q = k / m;
    assert(q >= 0real) by (nonlinear_arith)
        requires
            q * m == k,
            k >= 0real,
            m > 0real,
    ;
}

/// A sound has as many samples as fit in its time.
pub proof fn law_sounds_last_as_long_as_they_say<K: Fn(Op, Width, u64, u64) -> u64>(c: &Calc<K>, secs: F32, sample_rate: u32)
    requires
        rounds(c),
        secs.finite() && 0real <= amount(secs) <= 64real,
        sample_rate <= 0x1_0000,
    ensures
        ({
            let want = amount(secs) * (sample_rate as real);
            want - 1real - 2real <= samples_in(c, secs, sample_rate) as real <= want + 2real
        }),
{
    lemma_single_counts(c, sample_rate as u64);
    let r = F32::of_count(c, sample_rate as u64);
    lemma_about_times(c, secs, amount(secs), 0real, 64real, r, sample_rate as real, 0real, 0x1_0000real, 2real);
    lemma_product_not_negative(c, secs, r);
    lemma_floor_size(c, secs.mul(c, r));
}

/// A test tone is a sine of its frequency, seven tenths loud, under an envelope. The angle is
/// as many turns as the frequency makes in the time of the sample.
pub proof fn law_test_tones_are_sines<K: Fn(Op, Width, u64, u64) -> u64>(c: &Calc<K>, freq: F32, sample_rate: u32, i: u64, n: u64) -> (angle: F32)
    requires
        rounds(c),
        waves_stay_in_range(c),
        1 <= sample_rate <= 0x10_0000,
        i < 0x100_0000,
        i <= 4 * sample_rate,
        freq.finite() && 0real <= amount(freq) <= 0x1000real,
        ({
            let env = edge_env(c, i, n, single(0x3dcc_cccd));
            env.finite() && size(amount(env)) <= 2real
        }),
    ensures
        about(angle, crate::filters::turn() * amount(freq) * ((i as real) / (sample_rate as real)), 1real / 4real),
        about(
            sine_sample(c, freq, sample_rate, i, n),
            7real / 10real * amount(edge_env(c, i, n, single(0x3dcc_cccd))) * amount(angle.sin(c)),
            1real / 0x4_0000real,
        ),
{
    lemma_turn();
    lemma2_to64();
    law_samples_keep_their_rate(c, i, sample_rate);
    let (tau, t) = (single(0x40c9_0fdb), sample_time(c, i, sample_rate));
    let (f, at, k) = (amount(freq), (i as real) / (sample_rate as real), crate::filters::turn());
    lemma_about_times(c, tau, k, 0real, 7real, freq, f, 0real, 0x1000real, 1real / 128real);
    lemma_about_times(c, tau.mul(c, freq), k * f, 1real / 128real, 0x7000real, t, at, 1real / 0x4_0000real, 4real, 1real / 4real);
    let angle = tau.mul(c, freq).mul(c, t);
    lemma_wave_amounts(c, angle);
    lemma_scaled_wave(c, edge_env(c, i, n, single(0x3dcc_cccd)), angle.sin(c));
    angle
}

/// Seven tenths of an envelope and a wave.
proof fn lemma_scaled_wave<K: Fn(Op, Width, u64, u64) -> u64>(c: &Calc<K>, env: F32, w: F32)
    requires
        rounds(c),
        env.finite() && size(amount(env)) <= 2real,
        w.finite() && -1real <= amount(w) <= 1real,
    ensures
        about(
            single(0x3f33_3333).mul(c, env).mul(c, w),
            7real / 10real * amount(env) * amount(w),
            1real / 0x4_0000real,
        ),
{
    let u = 1real / 0x40_0000real;
    lemma2_to64();
    let part = single(0x3f33_3333);
    lemma_constant(0x3f33_3333, 0xb3_3333, 126);
    assert(pow2(24) as real == 0x100_0000real);
    assert(amount(part) * 0x100_0000real == 0xb3_3333real);
    assert(about(part, 7real / 10real, u / 8real));
    lemma_about_times(c, part, 7real / 10real, u / 8real, 1real, env, amount(env), 0real, 2real, 4real * u);
    lemma_about_times(c, part.mul(c, env), 7real / 10real * amount(env), 4real * u, 2real, w, amount(w), 0real, 1real, 8real * u);
}

/// Oscillators go round as often as their frequency says: the carrier at its own, the modulator
/// at its ratio of it.
pub proof fn law_oscillators_go_round<K: Fn(Op, Width, u64, u64) -> u64>(c: &Calc<K>, hz: F32, ratio: F32, sample_rate: u32)
    requires
        rounds(c),
        0x100 <= sample_rate <= 0x10_0000,
        hz.finite() && 0real <= amount(hz) <= 0x4000real,
        ratio.finite() && 1real / 64real <= amount(ratio) <= 64real,
    ensures
        about(phase_step(c, hz, sample_rate), crate::filters::turn() * amount(hz) / (sample_rate as real), 1real / 0x400real),
        about(
            modulator_step(c, hz, ratio, sample_rate),
            crate::filters::turn() * amount(hz) * amount(ratio) / (sample_rate as real),
            1real / 0x10real,
        ),
{
    lemma_turn();
    lemma2_to64();
    lemma_single_counts(c, sample_rate as u64);
    let least = single(0x3c23_d70a);
    lemma_constant(0x3c23_d70a, 0xa3_d70a, 120);
    assert(pow2(30) as real == 0x4000_0000real);
    assert(amount(least) * 0x4000_0000real == 0xa3_d70areal);
    lemma_compared(ratio, least);
    assert(ratio.max(least) == ratio);
    let (tau, r) = (single(0x40c9_0fdb), F32::of_count(c, sample_rate as u64));
    let (f, k, q) = (amount(hz), crate::filters::turn(), amount(ratio));
    lemma_about_times(c, tau, k, 0real, 7real, hz, f, 0real, 0x4000real, 1real / 32real);
    let p = tau.mul(c, hz);
    lemma_about_over(c, p, k * f, 1real / 32real, r, 256real, 0x1c0real, 1real / 0x400real);
    lemma_about_times(c, p, k * f, 1real / 32real, 0x1_c000real, ratio, q, 0real, 64real, 4real);
    lemma_about_over(c, p.mul(c, ratio), k * f * q, 4real, r, 256real, 0x7000real, 1real / 0x10real);
}

/// A phase moves on by a step from sample to sample.
pub proof fn law_phases_move_on<K: Fn(Op, Width, u64, u64) -> u64>(c: &Calc<K>, step: F32, n: nat)
    requires
        rounds(c),
        step.finite() && size(amount(step)) <= 64real,
        phase_after(c, step, n).finite() && size(amount(phase_after(c, step, n))) <= 0x1_0000real,
    ensures
        phase_after(c, step, 0) == single(0),
        about(phase_after(c, step, n + 1), amount(phase_after(c, step, n)) + amount(step), 1real / 32real),
{
    let p = phase_after(c, step, n);
    lemma_about_plus(c, p, amount(p), 0real, step, amount(step), 0real, 0x1_0040real, 1real / 32real);
}

/// A two-operator tone is the sine of its carrier, moved by the modulator's as far as the index
/// says, seven tenths loud, under an envelope.
pub proof fn law_tones_are_modulated<K: Fn(Op, Width, u64, u64) -> u64>(c: &Calc<K>, carrier: F32, modulator: F32, index: F32, i: u64, n: u64, sample_rate: u32) -> (angle: F32)
    requires
        rounds(c),
        waves_stay_in_range(c),
        carrier.finite() && size(amount(carrier)) <= 0x1_0000real,
        modulator.finite(),
        ({
            let k = index_at(c, index, i, sample_rate);
            k.finite() && size(amount(k)) <= 64real
        }),
        ({
            let env = edge_env(c, i, n, single(0x3da3_d70a));
            env.finite() && size(amount(env)) <= 2real
        }),
    ensures
        about(
            angle,
            amount(carrier) + amount(index_at(c, index, i, sample_rate)) * amount(modulator.sin(c)),
            1real / 32real,
        ),
        about(
            fm_sample(c, carrier, modulator, index, i, n, sample_rate),
            7real / 10real * amount(edge_env(c, i, n, single(0x3da3_d70a))) * amount(angle.sin(c)),
            1real / 0x4_0000real,
        ),
{
    let k = index_at(c, index, i, sample_rate);
    lemma_wave_amounts(c, modulator);
    let m = modulator.sin(c);
    lemma_about_times(c, k, amount(k), 0real, 64real, m, amount(m), 0real, 1real, 1real / 0x8000real);
    lemma_about_plus(c, carrier, amount(carrier), 0real, k.mul(c, m), amount(k) * amount(m), 1real / 0x8000real, 0x1_0040real, 1real / 32real);
    let angle = carrier.add(c, k.mul(c, m));
    lemma_wave_amounts(c, angle);
    lemma_scaled_wave(c, edge_env(c, i, n, single(0x3da3_d70a)), angle.sin(c));
    angle
}

// ---------------------------------------------------------------------- noise

/// White and pink mixed.
proof fn lemma_white_and_pink<K: Fn(Op, Width, u64, u64) -> u64>(c: &Calc<K>, color: F32, white: F32, pink: F32, brown: F32, k: real, w: real, p: real)
    requires
        rounds(c),
        weight(color) && k == amount(color) < 1real / 2real,
        white.finite() && w == amount(white) && -16real <= w <= 16real,
        pink.finite() && p == amount(pink) && -16real <= p <= 16real,
    ensures
        about(coloured(c, color, white, pink, brown), w * (1real - 2real * k) * (1real / 2real) + p * (2real * k), 1real / 0x4000real),
{
    let u = 1real / 0x40_0000real;
    lemma_constants();
    let (half, unity, two) = (single(0x3f00_0000), single(0x3f80_0000), single(0x4000_0000));
    lemma_compared(color, half);
    lemma_about_times(c, color, k, 0real, 1real, two, 2real, 0real, 2real, 3real * u);
    let d = color.mul(c, two);
    assert(k * 2real == 2real * k);
    let dr = 2real * k;
    lemma_about_less(c, unity, 1real, 0real, d, dr, 3real * u, 1real, 6real * u);
    let e = unity.sub(c, d);
    let er = 1real - dr;
    lemma_about_times(c, white, w, 0real, 16real, e, er, 6real * u, 1real, 120real * u);
    let f = white.mul(c, e);
    let fr = w * er;
    lemma_bounded(w, 16real, er, 1real);
    lemma_about_times(c, f, fr, 120real * u, 16real, half, 1real / 2real, 0real, 1real / 2real, 80real * u);
    lemma_about_times(c, pink, p, 0real, 16real, d, dr, 3real * u, 1real, 70real * u);
    lemma_bounded(p, 16real, dr, 1real);
    lemma_about_plus(c, f.mul(c, half), fr * (1real / 2real), 80real * u, pink.mul(c, d), p * dr, 70real * u, 32real, 200real * u);
}

/// Pink and brown mixed.
proof fn lemma_pink_and_brown<K: Fn(Op, Width, u64, u64) -> u64>(c: &Calc<K>, color: F32, white: F32, pink: F32, brown: F32, j: real, p: real, b: real)
    requires
        rounds(c),
        weight(color) && j == amount(color) - 1real / 2real >= 0real,
        pink.finite() && p == amount(pink) && -16real <= p <= 16real,
        brown.finite() && b == amount(brown) && -16real <= b <= 16real,
    ensures
        about(coloured(c, color, white, pink, brown), p * (1real - 2real * j) + b * (2real * j) * 6real, 1real / 0x800real),
{
    let u = 1real / 0x40_0000real;
    lemma_constants();
    lemma2_to64();
    let (half, unity, two, six) = (single(0x3f00_0000), single(0x3f80_0000), single(0x4000_0000), single(0x40c0_0000));
    lemma_constant(0x40c0_0000, 0xc0_0000, 129);
    assert(pow2(21) as real == 0x20_0000real);
    assert(amount(six) * 0x20_0000real == 0xc0_0000real);
    lemma_compared(color, half);
    lemma_about_less(c, color, amount(color), 0real, half, 1real / 2real, 0real, 1real, 2real * u);
    let h = color.sub(c, half);
    lemma_about_times(c, h, j, 2real * u, 1real, two, 2real, 0real, 2real, 8real * u);
    let d = h.mul(c, two);
    assert(j * 2real == 2real * j);
    let dr = 2real * j;
    lemma_about_less(c, unity, 1real, 0real, d, dr, 8real * u, 1real, 11real * u);
    let e = unity.sub(c, d);
    let er = 1real - dr;
    lemma_about_times(c, pink, p, 0real, 16real, e, er, 11real * u, 1real, 200real * u);
    lemma_about_times(c, brown, b, 0real, 16real, d, dr, 8real * u, 1real, 150real * u);
    let g = brown.mul(c, d);
    let gr = b * dr;
    lemma_bounded(b, 16real, dr, 1real);
    lemma_bounded(p, 16real, er, 1real);
    lemma_about_times(c, g, gr, 150real * u, 16real, six, 6real, 0real, 6real, 1000real * u);
    lemma_about_plus(c, pink.mul(c, e), p * er, 200real * u, g.mul(c, six), gr * 6real, 1000real * u, 112real, 1400real * u);
}

/// Noise goes from white over pink to brown as its colour goes from zero to one.
pub proof fn law_noise_has_its_colour<K: Fn(Op, Width, u64, u64) -> u64>(c: &Calc<K>, color: F32, white: F32, pink: F32, brown: F32)
    requires
        rounds(c),
        weight(color),
        white.finite() && -16real <= amount(white) <= 16real,
        pink.finite() && -16real <= amount(pink) <= 16real,
        brown.finite() && -16real <= amount(brown) <= 16real,
    ensures
        ({
            let (k, w, p, b) = (amount(color), amount(white), amount(pink), amount(brown));
            about(
                coloured(c, color, white, pink, brown),
                if k < 1real / 2real {
                    w * (1real - 2real * k) * (1real / 2real) + p * (2real * k)
                } else {
                    p * (1real - 2real * (k - 1real / 2real)) + b * (2real * (k - 1real / 2real)) * 6real
                },
                1real / 0x800real,
            )
        }),
{
    let k = amount(color);
    if k < 1real / 2real {
        lemma_white_and_pink(c, color, white, pink, brown, k, amount(white), amount(pink));
    } else {
        lemma_pink_and_brown(c, color, white, pink, brown, k - 1real / 2real, amount(pink), amount(brown));
    }
}

/// A low pass keeps its part of what it had and takes in its part of the new sample.
pub proof fn law_noise_is_smoothed<K: Fn(Op, Width, u64, u64) -> u64>(c: &Calc<K>, a: F32, b: F32, white: F32, g: F32)
    requires
        rounds(c),
        a.finite() && size(amount(a)) <= 1real,
        b.finite() && size(amount(b)) <= 64real,
        white.finite() && size(amount(white)) <= 1real,
        g.finite() && size(amount(g)) <= 2real,
    ensures
        about(low_passed(c, a, b, white, g), amount(a) * amount(b) + amount(white) * amount(g), 1real / 0x4000real),
{
    let u = 1real / 0x40_0000real;
    lemma_about_times(c, a, amount(a), 0real, 1real, b, amount(b), 0real, 64real, 66real * u);
    lemma_about_times(c, white, amount(white), 0real, 1real, g, amount(g), 0real, 2real, 4real * u);
    lemma_about_plus(c, a.mul(c, b), amount(a) * amount(b), 66real * u, white.mul(c, g), amount(white) * amount(g), 4real * u, 66real, 140real * u);
}

/// Brown noise wanders: a fiftieth of the new sample further, no further than one, and a little
/// back.
pub proof fn law_brown_noise_wanders<K: Fn(Op, Width, u64, u64) -> u64>(c: &Calc<K>, brown: F32, white: F32)
    requires
        rounds(c),
        brown.finite() && size(amount(brown)) <= 2real,
        white.finite() && size(amount(white)) <= 1real,
    ensures
        about(
            browned(c, brown, white),
            kept_within(amount(brown) + amount(white) / 50real, -1real, 1real) * (997real / 1000real),
            1real / 0x4_0000real,
        ),
{
    let u = 1real / 0x40_0000real;
    lemma_constants();
    lemma2_to64();
    let (part, back) = (single(0x3ca3_d70a), single(0x3f7f_3b64));
    lemma_constant(0x3ca3_d70a, 0xa3_d70a, 121);
    lemma_constant(0x3f7f_3b64, 0xff_3b64, 126);
    assert(pow2(29) as real == 0x2000_0000real);
    assert(pow2(24) as real == 0x100_0000real);
    assert(amount(part) * 0x2000_0000real == 0xa3_d70areal);
    assert(amount(back) * 0x100_0000real == 0xff_3b64real);
    let (x, w) = (amount(brown), amount(white));
    assert(about(part, 1real / 50real, u / 8real));
    assert(about(back, 997real / 1000real, u / 8real));
    lemma_about_times(c, white, w, 0real, 1real, part, 1real / 50real, u / 8real, 1real, 3real * u);
    assert(w * (1real / 50real) == w / 50real);
    let p = white.mul(c, part);
    lemma_about_plus(c, brown, x, 0real, p, w / 50real, 3real * u, 3real, 8real * u);
    let s = brown.add(c, p);
    lemma_about_kept(s, x + w / 50real, 8real * u, single(0xbf80_0000), single(0x3f80_0000));
    let k = kept_within(x + w / 50real, -1real, 1real);
    lemma_about_times(c, s.clamped(single(0xbf80_0000), single(0x3f80_0000)), k, 8real * u, 1real, back, 997real / 1000real, u / 8real, 1real, 12real * u);
}

/// Pink noise is a quarter of its low passes together and a little of the white.
pub proof fn law_pink_noise_adds_up<K: Fn(Op, Width, u64, u64) -> u64>(c: &Calc<K>, b0: F32, b1: F32, b2: F32, white: F32)
    requires
        rounds(c),
        b0.finite() && size(amount(b0)) <= 64real,
        b1.finite() && size(amount(b1)) <= 64real,
        b2.finite() && size(amount(b2)) <= 64real,
        white.finite() && size(amount(white)) <= 1real,
    ensures
        about(
            pink_of(c, b0, b1, b2, white),
            (amount(b0) + amount(b1) + amount(b2) + amount(white) * (1848real / 10000real)) / 4real,
            1real / 0x4000real,
        ),
{
    let u = 1real / 0x40_0000real;
    lemma2_to64();
    let (part, quarter) = (single(0x3e3d_3c36), single(0x3e80_0000));
    lemma_constant(0x3e3d_3c36, 0xbd_3c36, 124);
    lemma_constant(0x3e80_0000, 0x80_0000, 125);
    assert(pow2(26) as real == 0x400_0000real);
    assert(pow2(25) as real == 0x200_0000real);
    assert(amount(part) * 0x400_0000real == 0xbd_3c36real);
    assert(amount(quarter) * 0x200_0000real == 0x80_0000real);
    let (x, y, z, w) = (amount(b0), amount(b1), amount(b2), amount(white));
    assert(about(part, 1848real / 10000real, u / 4real));
    lemma_about_plus(c, b0, x, 0real, b1, y, 0real, 128real, 130real * u);
    let s = b0.add(c, b1);
    lemma_about_plus(c, s, x + y, 130real * u, b2, z, 0real, 192real, 325real * u);
    let t = s.add(c, b2);
    lemma_about_times(c, white, w, 0real, 1real, part, 1848real / 10000real, u / 4real, 1real, 3real * u);
    let p = white.mul(c, part);
    lemma_about_plus(c, t, x + y + z, 325real * u, p, w * (1848real / 10000real), 3real * u, 194real, 530real * u);
    lemma_about_times(c, t.add(c, p), x + y + z + w * (1848real / 10000real), 530real * u, 194real, quarter, 1real / 4real, 0real, 1real / 4real, 200real * u);
}

// -------------------------------------------------------------------- the trace

/// A trace runs through the middle for silence, and four fifths of the way to the top at full
/// amplitude.
pub proof fn law_traces_follow_the_amplitude<K: Fn(Op, Width, u64, u64) -> u64>(c: &Calc<K>, amp: F32, height: u32)
    requires
        rounds(c),
        amp.finite() && size(amount(amp)) <= 2real,
        height <= 0x4000,
    ensures
        about(
            trace_y(c, amp, height),
            (height as real) / 2real - amount(amp) * ((height as real) / 2real) * (4real / 5real),
            1real / 32real,
        ),
{
    let u = 1real / 0x40_0000real;
    lemma_constants();
    lemma2_to64();
    lemma_single_counts(c, height as u64);
    let (n, two, part) = (F32::of_count(c, height as u64), single(0x4000_0000), single(0x3f4c_cccd));
    lemma_constant(0x3f4c_cccd, 0xcc_cccd, 126);
    assert(pow2(24) as real == 0x100_0000real);
    assert(amount(part) * 0x100_0000real == 0xcc_cccdreal);
    assert(about(part, 4real / 5real, u / 8real));
    let (h, a) = (height as real / 2real, amount(amp));
    lemma_about_over(c, n, height as real, 0real, two, 2real, 0x2000real, 1real / 250real);
    let d = n.div(c, two);
    lemma_about_times(c, amp, a, 0real, 2real, d, h, 1real / 250real, 0x2000real, 1real / 80real);
    let p = amp.mul(c, d);
    lemma_about_times(c, p, a * h, 1real / 80real, 0x4000real, part, 4real / 5real, u / 8real, 1real, 1real / 55real);
    lemma_about_less(c, d, h, 1real / 250real, p.mul(c, part), a * h * (4real / 5real), 1real / 55real, 0x6000real, 1real / 32real);
}

/// Louder windows are brighter, from a quarter up to full brightness.
pub proof fn law_loud_windows_are_bright<K: Fn(Op, Width, u64, u64) -> u64>(c: &Calc<K>, rms: F32)
    requires
        rounds(c),
        rms.finite() && 0real <= amount(rms) <= 64real,
    ensures
        ({
            let want = 1real / 4real + amount(rms) * (22real / 10real);
            about(
                scope_bright(c, rms),
                if want < 1real {
                    want
                } else {
                    1real
                },
                1real / 0x1000real,
            )
        }),
{
    let u = 1real / 0x40_0000real;
    lemma_constants();
    lemma2_to64();
    let (quarter, part) = (single(0x3e80_0000), single(0x400c_cccd));
    lemma_constant(0x3e80_0000, 0x80_0000, 125);
    lemma_constant(0x400c_cccd, 0x8c_cccd, 128);
    assert(pow2(25) as real == 0x200_0000real);
    assert(pow2(22) as real == 0x40_0000real);
    assert(amount(quarter) * 0x200_0000real == 0x80_0000real);
    assert(amount(part) * 0x40_0000real == 0x8c_cccdreal);
    assert(about(part, 22real / 10real, u));
    let r = amount(rms);
    lemma_about_times(c, rms, r, 0real, 64real, part, 22real / 10real, u, 3real, 260real * u);
    lemma_about_plus(c, quarter, 1real / 4real, 0real, rms.mul(c, part), r * (22real / 10real), 260real * u, 193real, 460real * u);
    lemma_greater(quarter.add(c, rms.mul(c, part)), single(0x3f80_0000));
}

/// A trace's light is added to a pixel as far as it shows, up to full brightness, to the byte
/// below.
pub proof fn law_traces_add_light<K: Fn(Op, Width, u64, u64) -> u64>(c: &Calc<K>, px: u8, trace: u8, a: F32)
    requires
        rounds(c),
        drops_fractions(c),
        weight(a),
    ensures
        ({
            let want = px as real + (trace as real) * amount(a);
            let got = lit(c, px, trace, a) as real;
            -1real / 0x400real <= kept_within(want, 0real, 255real) - got <= 1real + 1real / 0x400real
        }),
{
    let u = 1real / 0x40_0000real;
    lemma2_to64();
    lemma_single_counts(c, px as u64);
    lemma_single_counts(c, trace as u64);
    let full = single(0x437f_0000);
    lemma_constant(0x437f_0000, 0xff_0000, 134);
    assert(pow2(16) as real == 0x1_0000real);
    assert(amount(full) * 0x1_0000real == 0xff_0000real);
    let (x, t) = (F32::of_count(c, px as u64), F32::of_count(c, trace as u64));
    lemma_about_times(c, t, trace as real, 0real, 255real, a, amount(a), 0real, 1real, 257real * u);
    lemma_about_plus(c, x, px as real, 0real, t.mul(c, a), (trace as real) * amount(a), 257real * u, 510real, 800real * u);
    let s = x.add(c, t.mul(c, a));
    lemma_greater(s, full);
    lemma_byte(c, s.lesser(full));
}

/// Each low pass of pink noise keeps and takes in its own part.
pub proof fn law_low_passes_of_pink_noise<K: Fn(Op, Width, u64, u64) -> u64>(c: &Calc<K>, s: NoiseState)
    requires
        rounds(c),
        s.b0.finite() && size(amount(s.b0)) <= 64real,
        s.b1.finite() && size(amount(s.b1)) <= 64real,
        s.b2.finite() && size(amount(s.b2)) <= 64real,
        drawn_centred(s.rng).finite() && size(amount(drawn_centred(s.rng))) <= 1real,
    ensures
        ({
            let (n, w) = (noise_next(c, s), amount(drawn_centred(s.rng)));
            let e = 1real / 0x1000real;
            &&& about(n.b0, 99765real / 100000real * amount(s.b0) + w * (990460real / 10000000real), e)
            &&& about(n.b1, 96300real / 100000real * amount(s.b1) + w * (2965164real / 10000000real), e)
            &&& about(n.b2, 57000real / 100000real * amount(s.b2) + w * (10526913real / 10000000real), e)
        }),
{
    lemma2_to64();
    let (k0, g0) = (single(0x3f7f_65fe), single(0x3dca_d8a1));
    let (k1, g1) = (single(0x3f76_872b), single(0x3e97_d0ff));
    let (k2, g2) = (single(0x3f11_eb85), single(0x3f86_be97));
    lemma_constant(0x3f7f_65fe, 0xff_65fe, 126);
    lemma_constant(0x3dca_d8a1, 0xca_d8a1, 123);
    lemma_constant(0x3f76_872b, 0xf6_872b, 126);
    lemma_constant(0x3e97_d0ff, 0x97_d0ff, 125);
    lemma_constant(0x3f11_eb85, 0x91_eb85, 126);
    lemma_constant(0x3f86_be97, 0x86_be97, 127);
    assert(pow2(24) as real == 0x100_0000real);
    assert(pow2(27) as real == 0x800_0000real);
    assert(pow2(25) as real == 0x200_0000real);
    assert(pow2(23) as real == 0x80_0000real);
    assert(amount(k0) * 0x100_0000real == 0xff_65fereal);
    assert(amount(g0) * 0x800_0000real == 0xca_d8a1real);
    assert(amount(k1) * 0x100_0000real == 0xf6_872breal);
    assert(amount(g1) * 0x200_0000real == 0x97_d0ffreal);
    assert(amount(k2) * 0x100_0000real == 0x91_eb85real);
    assert(amount(g2) * 0x80_0000real == 0x86_be97real);
    let white = drawn_centred(s.rng);
    law_noise_is_smoothed(c, k0, s.b0, white, g0);
    law_noise_is_smoothed(c, k1, s.b1, white, g1);
    law_noise_is_smoothed(c, k2, s.b2, white, g2);
    lemma_near_parts(amount(k0), 99765real / 100000real, amount(s.b0), amount(white), amount(g0), 990460real / 10000000real);
    lemma_near_parts(amount(k1), 96300real / 100000real, amount(s.b1), amount(white), amount(g1), 2965164real / 10000000real);
    lemma_near_parts(amount(k2), 57000real / 100000real, amount(s.b2), amount(white), amount(g2), 10526913real / 10000000real);
}

proof fn lemma_near_parts(k: real, kr: real, b: real, w: real, g: real, gr: real)
    requires
        -1real / 0x100_0000real <= k - kr <= 1real / 0x100_0000real,
        -1real / 0x80_0000real <= g - gr <= 1real / 0x80_0000real,
        size(b) <= 64real,
        size(w) <= 1real,
    ensures
        -1real / 0x2_0000real <= k * b + w * g - (kr * b + w * gr) <= 1real / 0x2_0000real,
{
    lemma_bounded(k - kr, 1real / 0x100_0000real, b, 64real);
    lemma_bounded(w, 1real, g - gr, 1real / 0x80_0000real);
    assert((k - kr) * b == k * b - kr * b) by (nonlinear_arith);
    assert(w * (g - gr) == w * g - w * gr) by (nonlinear_arith);
}

/// Noise is four fifths as loud as its envelope lets it.
pub proof fn law_noise_is_under_its_envelope<K: Fn(Op, Width, u64, u64) -> u64>(c: &Calc<K>, v: F32, i: u64, n: u64)
    requires
        rounds(c),
        v.finite() && size(amount(v)) <= 128real,
        ({
            let env = edge_env(c, i, n, single(0x3d75_c28f));
            env.finite() && size(amount(env)) <= 2real
        }),
    ensures
        about(noise_level(c, v, i, n), amount(v) * amount(edge_env(c, i, n, single(0x3d75_c28f))) * (4real / 5real), 1real / 0x1000real),
{
    let u = 1real / 0x40_0000real;
    lemma2_to64();
    let part = single(0x3f4c_cccd);
    lemma_constant(0x3f4c_cccd, 0xcc_cccd, 126);
    assert(pow2(24) as real == 0x100_0000real);
    assert(amount(part) * 0x100_0000real == 0xcc_cccdreal);
    assert(about(part, 4real / 5real, u / 8real));
    let env = edge_env(c, i, n, single(0x3d75_c28f));
    lemma_about_times(c, v, amount(v), 0real, 128real, env, amount(env), 0real, 2real, 260real * u);
    let p = amount(v) * amount(env);
    lemma_about_times(c, v.mul(c, env), p, 260real * u, 256real, part, 4real / 5real, u / 8real, 1real, 600real * u);
}

/// The index of a tone falls from all of itself towards a third or so, twice as fast as time
/// runs; `y` is what is left of the part that fades.
pub proof fn law_tones_lose_their_edge<K: Fn(Op, Width, u64, u64) -> u64>(c: &Calc<K>, index: F32, i: u64, sample_rate: u32) -> (at: F32)
    requires
        rounds(c),
        1 <= sample_rate <= 0x10_0000,
        i < 0x100_0000,
        i <= 4 * sample_rate,
        index.finite() && size(amount(index)) <= 64real,
        forall|y: F32|
            y.finite() && -16real <= amount(y) <= 1real / 16real ==> (#[trigger] y.exp(c)).finite() && 0real <= amount(y.exp(c)) <= 2real,
    ensures
        about(at, -2real * ((i as real) / (sample_rate as real)), 1real / 0x1_0000real),
        about(index_at(c, index, i, sample_rate), amount(index) * (35real / 100real + 65real / 100real * amount(at.exp(c))), 1real / 0x1000real),
{
    let u = 1real / 0x40_0000real;
    lemma_constants();
    lemma2_to64();
    law_samples_keep_their_rate(c, i, sample_rate);
    let (base, more, two) = (single(0x3eb3_3333), single(0x3f26_6666), single(0x4000_0000));
    lemma_constant(0x3eb3_3333, 0xb3_3333, 125);
    lemma_constant(0x3f26_6666, 0xa6_6666, 126);
    assert(pow2(25) as real == 0x200_0000real);
    assert(pow2(24) as real == 0x100_0000real);
    assert(amount(base) * 0x200_0000real == 0xb3_3333real);
    assert(amount(more) * 0x100_0000real == 0xa6_6666real);
    assert(about(base, 35real / 100real, u));
    assert(about(more, 65real / 100real, u));
    let t = sample_time(c, i, sample_rate);
    let tr = (i as real) / (sample_rate as real);
    lemma_minus(t);
    lemma_about_times(c, t.minus(), -tr, 1real / 0x4_0000real, 4real, two, 2real, 0real, 2real, 1real / 0x1_0000real);
    let at = t.minus().mul(c, two);
    assert(-tr * 2real == -2real * tr);
    let y = at.exp(c);
    let yr = amount(y);
    lemma_about_times(c, more, 65real / 100real, u, 1real, y, yr, 0real, 2real, 6real * u);
    let pr = 65real / 100real * yr;
    lemma_about_plus(c, base, 35real / 100real, u, more.mul(c, y), pr, 6real * u, 2real, 11real * u);
    let sr = 35real / 100real + pr;
    lemma_about_times(c, index, amount(index), 0real, 64real, base.add(c, more.mul(c, y)), sr, 11real * u, 2real, 900real * u);
    at
}

/// A bin of the spectrum stands for as many parts of the rate as its number.
pub proof fn law_bins_stand_for_their_frequency<K: Fn(Op, Width, u64, u64) -> u64>(c: &Calc<K>, k: u64, sample_rate: F32)
    requires
        rounds(c),
        k < 0x200,
        sample_rate.finite() && 0real <= amount(sample_rate) <= 0x4_0000real,
    ensures
        about(bin_hz(c, k, sample_rate), (k as real) * amount(sample_rate) / (CENTROID_N as real), 1real / 4real),
{
    lemma_single_counts(c, k);
    lemma_single_counts(c, CENTROID_N as u64);
    let (n, d) = (F32::of_count(c, k), F32::of_count(c, CENTROID_N as u64));
    lemma_about_times(c, n, k as real, 0real, 0x200real, sample_rate, amount(sample_rate), 0real, 0x4_0000real, 33real);
    let p = (k as real) * amount(sample_rate);
    lemma_about_over(c, n.mul(c, sample_rate), p, 33real, d, 512real, 0x4_0000real, 1real / 4real);
}

/// The light around a trace reaches six hundredths of the height, and one and a half pixels at
/// least.
pub proof fn law_traces_glow_by_the_height<K: Fn(Op, Width, u64, u64) -> u64>(c: &Calc<K>, height: u32)
    requires
        rounds(c),
        height <= 0x4000,
    ensures
        ({
            let want = (height as real) * (6real / 100real);
            about(
                trace_glow(c, height),
                if want < 3real / 2real {
                    3real / 2real
                } else {
                    want
                },
                1real / 0x400real,
            )
        }),
{
    let u = 1real / 0x40_0000real;
    lemma2_to64();
    let (part, least) = (single(0x3d75_c28f), single(0x3fc0_0000));
    lemma_constant(0x3d75_c28f, 0xf5_c28f, 122);
    lemma_constant(0x3fc0_0000, 0xc0_0000, 127);
    assert(pow2(28) as real == 0x1000_0000real);
    assert(pow2(23) as real == 0x80_0000real);
    assert(amount(part) * 0x1000_0000real == 0xf5_c28freal);
    assert(amount(least) * 0x80_0000real == 0xc0_0000real);
    assert(about(part, 6real / 100real, u / 64real));
    lemma_single_counts(c, height as u64);
    let n = F32::of_count(c, height as u64);
    lemma_about_times(c, n, height as real, 0real, 0x4000real, part, 6real / 100real, u / 64real, 1real / 16real, 1real / 0x400real);
    lemma_greater(n.mul(c, part), least);
}

} // verus!
