//! What knobs, grids and sizes come to, with arithmetic that rounds to nearest.
use crate::audio::{edge_env, sample_time, saw, saw_sample, soft_clipped};
use crate::calc::{Calc, Op, Width};
use crate::clocks::rounds_to_whole;
use crate::echoes::lemma_floor_size;
use crate::edit::snapped;
use crate::fx_audio::line_length;
use crate::midi::{turned, within};
use crate::num::{double, single, F32, F64};
use crate::playback::folded;
use crate::preview::{crush_block, preview_quality, smear_radius};
use crate::realtime::stream_beat;
use crate::reals::{
    about, about_double, amount, amount_of_double, lemma_about_less, lemma_about_less_double, lemma_about_over, lemma_about_over_double, lemma_about_plus, lemma_about_plus_double,
    lemma_about_times, lemma_about_times_double, lemma_compared, lemma_constant, lemma_constant_double, lemma_constants, lemma_counted, lemma_counts, lemma_greater, lemma_order_double, lemma_quotient,
    lemma_unsigned, lemma_widened, size,
};
use crate::rounding::{apart, one, rounds};
use crate::rounding_double::{rounds_doubles, unit};
use crate::shades::weight;
use crate::spread::lemma_single_counts;
use crate::stretch::phase_of;
use crate::video::{radians, reach_x, reach_y, Placement};
use vstd::arithmetic::power2::{lemma2_to64, lemma_pow2_adds, lemma_pow2_pos, pow2};
use vstd::prelude::*;

verus! {

/// A double rounded to a whole number, `k`.
proof fn lemma_rounded_double<K: Fn(Op, Width, u64, u64) -> u64>(c: &Calc<K>, a: F64) -> (k: int)
    requires
        rounds_to_whole(c),
        a.finite(),
        -0x1000_0000real <= amount_of_double(a) <= 0x1000_0000real,
    ensures
        a.round(c).finite(),
        amount_of_double(a.round(c)) == k as real,
        -1real / 2real <= (k as real) - amount_of_double(a) <= 1real / 2real,
{
    reveal(rounds_to_whole);
    lemma_pow2_pos(1074);
    let (u, v) = (unit() as real, a.value() as real);
    lemma_quotient(v, u);
    let x = amount_of_double(a);
    assert(-0x1000_0000real * u <= v <= 0x1000_0000real * u) by (nonlinear_arith)
        requires
            x * u == v,
            -0x1000_0000real <= x <= 0x1000_0000real,
            u > 0real,
    ;
    lemma_counted(0x1000_0000, unit());
    assert(apart(a.value(), 0) <= 0x1000_0000 * unit());
    assert(0x1000_0000 * unit() <= 0x4000_0000_0000_0000 * unit()) by (nonlinear_arith)
        requires
            unit() > 0,
    ;
    let r = a.round(c);
    let (n, k) = (r.value(), r.value() / unit());
    assert(n == k * unit()) by (nonlinear_arith)
        requires
            k == n / unit(),
            n % unit() == 0,
            unit() > 0,
    ;
    lemma_counted(k, unit());
    lemma_quotient(n as real, u);
    let (y, kr) = (amount_of_double(r), k as real);
    assert(y == kr) by (nonlinear_arith)
        requires
            y * u == kr * u,
            u > 0real,
    ;
    assert(-1real / 2real <= kr - x <= 1real / 2real) by (nonlinear_arith)
        requires
            -u <= 2real * (kr * u - x * u) <= u,
            u > 0real,
    ;
    k
}

/// A beat is moved to the nearest line of the grid, the `k`-th.
pub proof fn law_beats_snap_to_the_nearest_line<K: Fn(Op, Width, u64, u64) -> u64>(c: &Calc<K>, beat: F64, grid: F64) -> (k: int)
    requires
        rounds_doubles(c),
        rounds_to_whole(c),
        beat.finite() && -0x10_0000real <= amount_of_double(beat) <= 0x10_0000real,
        grid.finite() && 1real / 16real <= amount_of_double(grid) <= 64real,
    ensures
        about_double(snapped(c, beat, grid), (k as real) * amount_of_double(grid), 1real / 0x1_0000real),
        ({
            let off = amount_of_double(beat) - (k as real) * amount_of_double(grid);
            -amount_of_double(grid) / 2real - 1real / 0x1_0000real <= off <= amount_of_double(grid) / 2real + 1real / 0x1_0000real
        }),
{
    let (b, g) = (amount_of_double(beat), amount_of_double(grid));
    let e = 1real / 0x80_0000real;
    lemma_about_over_double(c, beat, b, 0real, grid, 1real / 16real, 0x100_0000real, e);
    let q = beat.div(c, grid);
    lemma_quotient(b, g);
    let z = b / g;
    let k = lemma_rounded_double(c, q);
    let kr = k as real;
    assert(-g / 2real - 1real / 0x1_0000real <= b - kr * g <= g / 2real + 1real / 0x1_0000real) by (nonlinear_arith)
        requires
            z * g == b,
            -1real / 2real - e <= kr - z <= 1real / 2real + e,
            0real < g <= 64real,
            e == 1real / 0x80_0000real,
    ;
    lemma_about_times_double(c, q.round(c), kr, 0real, 0x200_0000real, grid, g, 0real, 64real, 1real / 0x1_0000real);
    k
}

/// A dial that was turned stands for as much of its way as its value is of the greatest.
pub proof fn law_dials_stand_for_their_part<K: Fn(Op, Width, u64, u64) -> u64>(c: &Calc<K>, value: u8)
    requires
        rounds_doubles(c),
        value <= 127,
    ensures
        about_double(turned(c, value), (value as real) / 127real, 1real / 0x1_0000_0000real),
{
    lemma2_to64();
    lemma_pow2_adds(32, 14);
    let top = double(0x405f_c000_0000_0000);
    lemma_constant_double(0x405f_c000_0000_0000, 0x1f_c000_0000_0000, 1029);
    assert(pow2(46) as real == 0x4000_0000_0000real);
    assert(amount_of_double(top) * 0x4000_0000_0000real == 0x1f_c000_0000_0000real);
    lemma_counts(c, value as u64);
    lemma_about_over_double(c, F64::of_count(c, value as u64), value as real, 0real, top, 127real, 1real, 1real / 0x1_0000_0000real);
}

/// A parameter that a dial sets is as far from the least to the greatest as the dial is turned.
pub proof fn law_dials_go_from_least_to_greatest<K: Fn(Op, Width, u64, u64) -> u64>(c: &Calc<K>, lo: F32, hi: F32, f: F64)
    requires
        rounds(c),
        rounds_doubles(c),
        lo.finite() && -0x1000real <= amount(lo) <= 0x1000real,
        hi.finite() && -0x1000real <= amount(hi) <= 0x1000real,
        f.finite() && 0real <= amount_of_double(f) <= 1real,
    ensures
        about_double(within(c, lo, hi, f), amount(lo) + (amount(hi) - amount(lo)) * amount_of_double(f), 1real / 200real),
{
    let (l, h, t) = (amount(lo), amount(hi), amount_of_double(f));
    lemma_about_less(c, hi, h, 0real, lo, l, 0real, 0x2000real, 1real / 500real);
    let d = hi.sub(c, lo);
    lemma_widened(c, d);
    lemma_widened(c, lo);
    let dr = h - l;
    lemma_about_times_double(c, d.to_f64(c), dr, 1real / 500real, 0x2000real, f, t, 0real, 1real, 1real / 400real);
    lemma_about_plus_double(c, lo.to_f64(c), l, 0real, d.to_f64(c).mul(c, f), dr * t, 1real / 400real, 0x4000real, 1real / 200real);
}

/// The lines of a reverb are as long as at the rate that they were made for, in time.
pub proof fn law_reverb_lines_follow_the_rate<K: Fn(Op, Width, u64, u64) -> u64>(c: &Calc<K>, t: F32, offset: F32, sample_rate: u32)
    requires
        rounds(c),
        t.finite() && 0real <= amount(t) <= 0x1000real,
        offset.finite() && 0real <= amount(offset) <= 0x100real,
        amount(t) + amount(offset) >= 1real,
        0x1000 <= sample_rate <= 0x4_0000,
    ensures
        ({
            let want = (amount(t) + amount(offset)) * ((sample_rate as real) / 44100real);
            want - 1real - 1real / 32real <= line_length(c, t, offset, sample_rate) as real <= want + 1real / 32real
        }),
{
    let u = 1real / 0x40_0000real;
    lemma2_to64();
    let base = single(0x472c_4400);
    lemma_constant(0x472c_4400, 0xac_4400, 142);
    assert(pow2(8) as real == 0x100real);
    assert(amount(base) * 0x100real == 0xac_4400real);
    lemma_single_counts(c, sample_rate as u64);
    let (n, sr) = (F32::of_count(c, sample_rate as u64), sample_rate as real);
    lemma_about_over(c, n, sr, 0real, base, 44100real, 6real, 14real * u);
    let q = n.div(c, base);
    let qr = sr / 44100real;
    let s = t.add(c, offset);
    let a = amount(t) + amount(offset);
    lemma_about_plus(c, t, amount(t), 0real, offset, amount(offset), 0real, 0x1100real, 4400real * u);
    assert((4400real * u) * (14real * u) <= u) by (nonlinear_arith)
        requires
            u == 1real / 0x40_0000real,
    ;
    lemma_about_times(c, s, a, 4400real * u, 0x1100real, q, qr, 14real * u, 6real, 1real / 32real);
    assert(a * qr >= 1real / 16real) by (nonlinear_arith)
        requires
            a >= 1real,
            qr >= 1real / 16real,
    ;
    lemma_floor_size(c, s.mul(c, q));
}

/// A beat of the stream is as many samples in as the rate and the tempo say.
pub proof fn law_streams_count_beats<K: Fn(Op, Width, u64, u64) -> u64>(c: &Calc<K>, bpm: F64, rate: u32, i: u64)
    requires
        rounds_doubles(c),
        bpm.finite() && 1real <= amount_of_double(bpm) <= 0x400real,
        0x100 <= rate <= 0x10_0000,
        i < 0x1_0000_0000,
    ensures
        about_double(stream_beat(c, bpm, rate, i), (i as real) / (rate as real) * (amount_of_double(bpm) / 60real), 1real / 0x400real),
{
    lemma2_to64();
    lemma_pow2_adds(32, 15);
    let minute = double(0x404e_0000_0000_0000);
    lemma_constant_double(0x404e_0000_0000_0000, 0x1e_0000_0000_0000, 1028);
    assert(pow2(47) as real == 0x8000_0000_0000real);
    assert(amount_of_double(minute) * 0x8000_0000_0000real == 0x1e_0000_0000_0000real);
    lemma_counts(c, i);
    lemma_counts(c, rate as u64);
    let w = 1real / 0x100_0000_0000real;
    let (n, r) = (F64::of_count(c, i), F64::of_count(c, rate as u64));
    lemma_about_over_double(c, n, i as real, 0real, r, 256real, 0x100_0000real, 1real / 0x200_0000real);
    lemma_about_over_double(c, bpm, amount_of_double(bpm), 0real, minute, 60real, 18real, w);
    let (p, q) = ((i as real) / (rate as real), amount_of_double(bpm) / 60real);
    lemma_about_times_double(c, n.div(c, r), p, 1real / 0x200_0000real, 0x100_0000real, bpm.div(c, minute), q, w, 18real, 1real / 0x400real);
}

/// An effect that is dialled is as far from leaving things alone to doing all it does as its
/// amount says.
pub proof fn law_previews_follow_the_dial<K: Fn(Op, Width, u64, u64) -> u64>(c: &Calc<K>, x: F32, k: F32)
    requires
        rounds(c),
        weight(k),
        x.finite() && 0real <= amount(x) <= 256real,
    ensures
        ({
            let want = 1real + (amount(x) - 1real) * amount(k);
            &&& about(preview_quality(c, x, k), want, 1real / 0x1000real)
            &&& about(
                crush_block(c, x, k),
                if want < 1real {
                    1real
                } else {
                    want
                },
                1real / 0x1000real,
            )
        }),
{
    let u = 1real / 0x40_0000real;
    lemma_constants();
    let (unity, a, b) = (single(0x3f80_0000), amount(x), amount(k));
    lemma_about_less(c, x, a, 0real, unity, 1real, 0real, 256real, 258real * u);
    let d = x.sub(c, unity);
    let dr = a - 1real;
    lemma_about_times(c, d, dr, 258real * u, 256real, k, b, 0real, 1real, 520real * u);
    lemma_about_plus(c, unity, 1real, 0real, d.mul(c, k), dr * b, 520real * u, 257real, 800real * u);
    lemma_greater(unity.add(c, d.mul(c, k)), unity);
}

/// Damping smears over one pixel and five more for all of it.
pub proof fn law_damping_smears<K: Fn(Op, Width, u64, u64) -> u64>(c: &Calc<K>, damp: F32)
    requires
        rounds(c),
        weight(damp),
    ensures
        about(smear_radius(c, damp), 1real + 5real * amount(damp), 1real / 0x4_0000real),
{
    let u = 1real / 0x40_0000real;
    lemma_constants();
    lemma2_to64();
    let five = single(0x40a0_0000);
    lemma_constant(0x40a0_0000, 0xa0_0000, 129);
    assert(pow2(21) as real == 0x20_0000real);
    assert(amount(five) * 0x20_0000real == 0xa0_0000real);
    lemma_about_times(c, damp, amount(damp), 0real, 1real, five, 5real, 0real, 5real, 6real * u);
    lemma_about_plus(c, single(0x3f80_0000), 1real, 0real, damp.mul(c, five), amount(damp) * 5real, 6real * u, 6real, 16real * u);
}

/// Angles in degrees become parts of half a turn.
pub proof fn law_degrees_become_radians<K: Fn(Op, Width, u64, u64) -> u64>(c: &Calc<K>, degrees: F32)
    requires
        rounds(c),
        degrees.finite() && -720real <= amount(degrees) <= 720real,
    ensures
        about(radians(c, degrees), amount(degrees) * (crate::filters::turn() / 360real), 1real / 0x1_0000real),
{
    let u = 1real / 0x40_0000real;
    lemma2_to64();
    let part = single(0x3c8e_fa35);
    lemma_constant(0x3c8e_fa35, 0x8e_fa35, 121);
    assert(pow2(29) as real == 0x2000_0000real);
    assert(amount(part) * 0x2000_0000real == 0x8e_fa35real);
    let k = crate::filters::turn() / 360real;
    assert(about(part, k, u / 64real));
    lemma_about_times(c, degrees, amount(degrees), 0real, 720real, part, k, u / 64real, 1real / 32real, 1real / 0x1_0000real);
}

/// A turned rectangle reaches as far to each side as its turned sides do together.
pub proof fn law_turned_rectangles_reach_further<K: Fn(Op, Width, u64, u64) -> u64>(c: &Calc<K>, p: Placement)
    requires
        rounds(c),
        p.rw.finite() && 0real <= amount(p.rw) <= 0x1000real,
        p.rh.finite() && 0real <= amount(p.rh) <= 0x1000real,
        p.sin_r.finite() && -1real <= amount(p.sin_r) <= 1real,
        p.cos_r.finite() && -1real <= amount(p.cos_r) <= 1real,
    ensures
        about(reach_x(c, p), amount(p.rw) * size(amount(p.cos_r)) + amount(p.rh) * size(amount(p.sin_r)), 1real / 128real),
        about(reach_y(c, p), amount(p.rw) * size(amount(p.sin_r)) + amount(p.rh) * size(amount(p.cos_r)), 1real / 128real),
{
    let e = 1real / 900real;
    lemma_unsigned(p.sin_r);
    lemma_unsigned(p.cos_r);
    let (s, k) = (p.sin_r.abs(), p.cos_r.abs());
    let (w, h, sr, kr) = (amount(p.rw), amount(p.rh), size(amount(p.sin_r)), size(amount(p.cos_r)));
    lemma_about_times(c, p.rw, w, 0real, 0x1000real, k, kr, 0real, 1real, e);
    lemma_about_times(c, p.rh, h, 0real, 0x1000real, s, sr, 0real, 1real, e);
    lemma_about_times(c, p.rw, w, 0real, 0x1000real, s, sr, 0real, 1real, e);
    lemma_about_times(c, p.rh, h, 0real, 0x1000real, k, kr, 0real, 1real, e);
    lemma_about_plus(c, p.rw.mul(c, k), w * kr, e, p.rh.mul(c, s), h * sr, e, 0x2000real, 1real / 128real);
    lemma_about_plus(c, p.rw.mul(c, s), w * sr, e, p.rh.mul(c, k), h * kr, e, 0x2000real, 1real / 128real);
}

/// A drawn phase is as much of a turn as was drawn.
pub proof fn law_phases_are_drawn_from_a_turn<K: Fn(Op, Width, u64, u64) -> u64>(c: &Calc<K>, u: F32)
    requires
        rounds(c),
        weight(u),
    ensures
        about(phase_of(c, u), amount(u) * crate::filters::turn(), 1real / 0x1_0000real),
{
    let e = 1real / 0x40_0000real;
    lemma_constants();
    lemma2_to64();
    let (two, pi) = (single(0x4000_0000), single(0x4049_0fdb));
    lemma_constant(0x4049_0fdb, 0xc9_0fdb, 128);
    assert(pow2(22) as real == 0x40_0000real);
    assert(amount(pi) * 0x40_0000real == 0xc9_0fdbreal);
    let (a, h) = (amount(u), crate::filters::turn() / 2real);
    assert(amount(pi) == h);
    lemma_about_times(c, u, a, 0real, 1real, two, 2real, 0real, 2real, 4real * e);
    let p = a * 2real;
    lemma_about_times(c, u.mul(c, two), p, 4real * e, 2real, pi, h, 0real, 4real, 40real * e);
    assert(p * h == a * crate::filters::turn()) by (nonlinear_arith)
        requires
            p == a * 2real,
            h == crate::filters::turn() / 2real,
    ;
}

/// Whether the part of a single behind the point is exact for numbers that are not negative.
#[verifier::opaque]
pub open spec fn takes_fractions<K: Fn(Op, Width, u64, u64) -> u64>(c: &Calc<K>) -> bool {
    forall|a: F32|
        a.finite() && a.value() >= 0 ==> (#[trigger] a.fract(c)).finite() && a.fract(c).value() == a.value() % one()
}

/// A saw goes from minus one to one with each turn of its frequency; `turns` counts them, and
/// whole ones, `k` of them, do not matter.
pub proof fn law_saws_rise_with_each_turn<K: Fn(Op, Width, u64, u64) -> u64>(c: &Calc<K>, freq: F32, detune: F32, t: F32) -> (r: (F32, int))
    requires
        rounds(c),
        takes_fractions(c),
        freq.finite() && 1real <= amount(freq) <= 0x1000real,
        detune.finite() && 1real / 2real <= amount(detune) <= 2real,
        t.finite() && 0real <= amount(t) <= 4real,
        freq.mul(c, detune).mul(c, t).value() >= 0,
    ensures
        ({
            let (turns, k) = r;
            &&& about(turns, amount(freq) * amount(detune) * amount(t), 1real / 32real)
            &&& 0real <= amount(turns) - (k as real) < 1real
            &&& about(saw(c, freq, detune, t), 2real * (amount(turns) - (k as real)) - 1real, 1real / 0x4_0000real)
        }),
{
    let u = 1real / 0x40_0000real;
    lemma_constants();
    let (f, d, a) = (amount(freq), amount(detune), amount(t));
    lemma_about_times(c, freq, f, 0real, 0x1000real, detune, d, 0real, 2real, 9000real * u);
    let p = f * d;
    lemma_about_times(c, freq.mul(c, detune), p, 9000real * u, 0x2000real, t, a, 0real, 4real, 1real / 32real);
    let turns = freq.mul(c, detune).mul(c, t);
    reveal(takes_fractions);
    lemma_pow2_pos(149);
    let (n, w, uu) = (turns.value(), one(), one() as real);
    let (k, m) = (n / w, n % w);
    assert(n == k * w + m && 0 <= m < w && k >= 0) by (nonlinear_arith)
        requires
            k == n / w,
            m == n % w,
            n >= 0,
            w > 0,
    ;
    lemma_counted(k, w);
    lemma_quotient(n as real, uu);
    lemma_quotient(m as real, uu);
    let part = turns.fract(c);
    let (x, y, kr) = (amount(turns), amount(part), k as real);
    assert(x == kr + y && 0real <= y < 1real) by (nonlinear_arith)
        requires
            x * uu == kr * uu + y * uu,
            0real <= y * uu < uu,
            uu > 0real,
    ;
    let two = single(0x4000_0000);
    lemma_about_times(c, two, 2real, 0real, 2real, part, y, 0real, 1real, 4real * u);
    lemma_about_less(c, two.mul(c, part), 2real * y, 4real * u, single(0x3f80_0000), 1real, 0real, 1real, 8real * u);
    (turns, k)
}

/// A saw tone is a quarter of three saws together, one of them a little sharp and one a little
/// flat, under an envelope.
pub proof fn law_saw_tones_add_three_saws<K: Fn(Op, Width, u64, u64) -> u64>(c: &Calc<K>, freq: F32, sample_rate: u32, i: u64, n: u64)
    requires
        rounds(c),
        ({
            let t = sample_time(c, i, sample_rate);
            let (x, y, z) = (saw(c, freq, single(0x3f80_0000), t), saw(c, freq, single(0x3f80_a3d7), t), saw(c, freq, single(0x3f7e_b852), t));
            let env = edge_env(c, i, n, single(0x3d4c_cccd));
            &&& x.finite() && -2real <= amount(x) <= 2real
            &&& y.finite() && -2real <= amount(y) <= 2real
            &&& z.finite() && -2real <= amount(z) <= 2real
            &&& env.finite() && -2real <= amount(env) <= 2real
        }),
    ensures
        ({
            let t = sample_time(c, i, sample_rate);
            let (x, y, z) = (saw(c, freq, single(0x3f80_0000), t), saw(c, freq, single(0x3f80_a3d7), t), saw(c, freq, single(0x3f7e_b852), t));
            let env = edge_env(c, i, n, single(0x3d4c_cccd));
            about(saw_sample(c, freq, sample_rate, i, n), amount(env) / 4real * (amount(x) + amount(y) + amount(z)), 1real / 0x1_0000real)
        }),
        about(single(0x3f80_a3d7), 1005real / 1000real, 1real / 0x10_0000real),
        about(single(0x3f7e_b852), 995real / 1000real, 1real / 0x10_0000real),
{
    let u = 1real / 0x40_0000real;
    lemma_constants();
    lemma2_to64();
    let (sharp, flat, quarter) = (single(0x3f80_a3d7), single(0x3f7e_b852), single(0x3e80_0000));
    lemma_constant(0x3f80_a3d7, 0x80_a3d7, 127);
    lemma_constant(0x3f7e_b852, 0xfe_b852, 126);
    lemma_constant(0x3e80_0000, 0x80_0000, 125);
    assert(pow2(23) as real == 0x80_0000real);
    assert(pow2(24) as real == 0x100_0000real);
    assert(pow2(25) as real == 0x200_0000real);
    assert(amount(sharp) * 0x80_0000real == 0x80_a3d7real);
    assert(amount(flat) * 0x100_0000real == 0xfe_b852real);
    assert(amount(quarter) * 0x200_0000real == 0x80_0000real);
    let t = sample_time(c, i, sample_rate);
    let (x, y, z) = (saw(c, freq, single(0x3f80_0000), t), saw(c, freq, sharp, t), saw(c, freq, flat, t));
    let env = edge_env(c, i, n, single(0x3d4c_cccd));
    let (xr, yr, zr, er) = (amount(x), amount(y), amount(z), amount(env));
    lemma_about_plus(c, single(0), 0real, 0real, x, xr, 0real, 2real, 3real * u);
    lemma_about_plus(c, single(0).add(c, x), xr, 3real * u, y, yr, 0real, 4real, 9real * u);
    let s = single(0).add(c, x).add(c, y);
    lemma_about_plus(c, s, xr + yr, 9real * u, z, zr, 0real, 6real, 17real * u);
    let sr = xr + yr + zr;
    lemma_about_times(c, quarter, 1real / 4real, 0real, 1real / 4real, env, er, 0real, 2real, 2real * u);
    let q = er / 4real;
    assert(1real / 4real * er == q);
    assert((2real * u) * (17real * u) <= u) by (nonlinear_arith)
        requires
            u == 1real / 0x40_0000real,
    ;
    lemma_about_times(c, quarter.mul(c, env), q, 2real * u, 1real, s.add(c, z), sr, 17real * u, 6real, 60real * u);
}

/// Whether the remainder of doubles that are not negative is exact.
#[verifier::opaque]
pub open spec fn takes_remainders_of_doubles<K: Fn(Op, Width, u64, u64) -> u64>(c: &Calc<K>) -> bool {
    forall|a: F64, b: F64|
        a.finite() && b.finite() && a.value() >= 0 && b.value() > 0 ==> (#[trigger] a.rem(c, b)).finite() && a.rem(c, b).value()
            == a.value() % b.value()
}

/// A playhead that is past the end of its loop stands in the loop, whole lengths of it, `k`,
/// before where it would be.
pub proof fn law_playheads_stay_in_their_loop<K: Fn(Op, Width, u64, u64) -> u64>(c: &Calc<K>, raw: F64, from: F64, to: F64) -> (k: int)
    requires
        rounds_doubles(c),
        takes_remainders_of_doubles(c),
        raw.finite() && from.finite() && to.finite(),
        0real <= amount_of_double(from) <= amount_of_double(raw) <= 0x10_0000real,
        amount_of_double(from) + 1real / 0x100real <= amount_of_double(to) <= 0x10_0000real,
        raw.sub(c, from).value() >= 0,
    ensures
        k >= 0,
        ({
            let at = folded(c, raw, from, to);
            let len = amount_of_double(to.sub(c, from));
            &&& about_double(to.sub(c, from), amount_of_double(to) - amount_of_double(from), 1real / 0x1000_0000real)
            &&& about_double(at, amount_of_double(raw) - (k as real) * len, 1real / 0x800_0000real)
            &&& amount_of_double(from) - 1real / 0x800_0000real <= amount_of_double(at) <= amount_of_double(to) + 1real / 0x400_0000real
        }),
{
    let e = 1real / 0x1000_0000real;
    let (r, f, t) = (amount_of_double(raw), amount_of_double(from), amount_of_double(to));
    lemma_about_less_double(c, raw, r, 0real, from, f, 0real, 0x10_0000real, e);
    lemma_about_less_double(c, to, t, 0real, from, f, 0real, 0x10_0000real, e);
    let (a, b) = (raw.sub(c, from), to.sub(c, from));
    reveal(takes_remainders_of_doubles);
    lemma_pow2_pos(1074);
    lemma_order_double(F64 { bits: 0 }, b);
    assert(crate::num::double_value(0) == 0);
    let (n, d, u) = (a.value(), b.value(), unit() as real);
    let (k, m) = (n / d, n % d);
    assert(n == k * d + m && 0 <= m < d && k >= 0) by (nonlinear_arith)
        requires
            k == n / d,
            m == n % d,
            n >= 0,
            d > 0,
    ;
    let w = a.rem(c, b);
    lemma_counted(k, d);
    lemma_quotient(n as real, u);
    lemma_quotient(d as real, u);
    lemma_quotient(m as real, u);
    let (x, y, z, kk) = (amount_of_double(a), amount_of_double(b), amount_of_double(w), k as real);
    assert(x == kk * y + z && 0real <= z < y) by (nonlinear_arith)
        requires
            x * u == kk * (y * u) + z * u,
            0real <= z * u < y * u,
            u > 0real,
    ;
    lemma_about_plus_double(c, from, f, 0real, w, z, 0real, 0x40_0000real, e);
    k
}

/// Loud samples become their hyperbolic tangent; of quieter ones that is a fifth, and the rest is
/// the sample.
pub proof fn law_quiet_samples_are_mostly_kept<K: Fn(Op, Width, u64, u64) -> u64>(c: &Calc<K>, s: F32)
    requires
        rounds(c),
        s.finite(),
        s.tanh(c).finite() && -1real <= amount(s.tanh(c)) <= 1real,
    ensures
        size(amount(s)) > 1real ==> soft_clipped(c, s) == s.tanh(c),
        size(amount(s)) <= 1real ==> about(soft_clipped(c, s), amount(s.tanh(c)) / 5real + amount(s) * (4real / 5real), 1real / 0x4_0000real),
{
    let u = 1real / 0x40_0000real;
    lemma_constants();
    lemma2_to64();
    lemma_unsigned(s);
    lemma_compared(single(0x3f80_0000), s.abs());
    let (fifth, rest) = (single(0x3e4c_cccd), single(0x3f4c_cccd));
    lemma_constant(0x3e4c_cccd, 0xcc_cccd, 124);
    lemma_constant(0x3f4c_cccd, 0xcc_cccd, 126);
    assert(pow2(26) as real == 0x400_0000real);
    assert(pow2(24) as real == 0x100_0000real);
    assert(amount(fifth) * 0x400_0000real == 0xcc_cccdreal);
    assert(amount(rest) * 0x100_0000real == 0xcc_cccdreal);
    assert(about(fifth, 1real / 5real, u / 8real));
    assert(about(rest, 4real / 5real, u / 8real));
    if size(amount(s)) <= 1real {
        let t = s.tanh(c);
        let (a, b) = (amount(t), amount(s));
        lemma_about_times(c, t, a, 0real, 1real, fifth, 1real / 5real, u / 8real, 1real, 3real * u);
        lemma_about_times(c, s, b, 0real, 1real, rest, 4real / 5real, u / 8real, 1real, 3real * u);
        assert(a * (1real / 5real) == a / 5real);
        lemma_about_plus(c, t.mul(c, fifth), a / 5real, 3real * u, s.mul(c, rest), b * (4real / 5real), 3real * u, 2real, 10real * u);
    }
}

} // verus!
