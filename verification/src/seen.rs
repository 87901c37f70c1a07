//! What a grain looks like: when, where, how large, how bright and in which colour it is
//! drawn, with arithmetic that rounds to nearest.
use crate::calc::{Calc, Op, Width};
use crate::dsp::grain_env_skewed;
use crate::grain::GrainEvent;
use crate::masks::lemma_ones;
use crate::music::ratio_to_semitones;
use crate::num::{double, single, F32, F64};
use crate::reals::{
    about, about_double, amount, amount_of_double, converts, kept_within, lemma_about_kept, lemma_about_less, lemma_about_less_double,
    lemma_about_over, lemma_about_plus, lemma_about_plus_double, lemma_about_times, lemma_about_times_double, lemma_constant, lemma_constants,
    lemma_compared, lemma_compared_double, lemma_exactly_double, lemma_fraction, lemma_greater, lemma_kept, lemma_narrowed, lemma_order, lemma_order_double,
    lemma_over_within_double, lemma_quotient, lemma_widened, size,
};
use crate::rounding::rounds;
use crate::rounding_double::{rounds_doubles, unit};
use crate::video::{draw_of, grain_phase, law_scatter_stays_in_range, radians, scatter, visual_rate, Look};
use crate::washes::{lemma_wave, waves_stay_in_range};
use vstd::arithmetic::power2::{lemma2_to64, pow2};
use vstd::prelude::*;

verus! {

// ------------------------------------------------------------------ the clock

/// The rate that a grain's patch plays at: its pitch ratio, as far as it is linked.
pub open spec fn linked_rate(look: Look, ev: GrainEvent) -> real {
    1real + (amount(ev.pitch_ratio) - 1real) * amount(look.link.pitch_to_rate)
}

/// Whether a draw is asked for at an ordinary time: ratios up to 64, within 2^20 seconds.
pub open spec fn watchable(look: Look, ev: GrainEvent, t: F64) -> bool {
    &&& ev.pitch_ratio.finite() && 0real <= amount(ev.pitch_ratio) <= 64real
    &&& look.link.pitch_to_rate.finite() && 0real <= amount(look.link.pitch_to_rate) <= 1real
    &&& ev.onset.finite() && size(amount_of_double(ev.onset)) <= 0x10_0000real
    &&& t.finite() && size(amount_of_double(t)) <= 0x10_0000real
    &&& ev.source_pos.finite() && size(amount_of_double(ev.source_pos)) <= 0x10_0000real
    &&& ev.duration.finite() && 0real <= amount(ev.duration) <= 0x1_0000real
}

proof fn lemma_rate<K: Fn(Op, Width, u64, u64) -> u64>(c: &Calc<K>, look: Look, ev: GrainEvent)
    requires
        rounds(c),
        rounds_doubles(c),
        ev.pitch_ratio.finite() && 0real <= amount(ev.pitch_ratio) <= 64real,
        look.link.pitch_to_rate.finite() && 0real <= amount(look.link.pitch_to_rate) <= 1real,
    ensures
        about_double(visual_rate(c, look.link, ev), linked_rate(look, ev), 1real / 0x4000real),
        -64real <= linked_rate(look, ev) <= 66real,
{
    lemma_constants();
    let unity = single(0x3f80_0000);
    let (p, l) = (ev.pitch_ratio, look.link.pitch_to_rate);
    lemma_about_less(c, p, amount(p), 0real, unity, 1real, 0real, 64real, 65real / 0x40_0000real);
    let a = p.sub(c, unity);
    lemma_about_times(c, a, amount(p) - 1real, 65real / 0x40_0000real, 64real, l, amount(l), 0real, 1real, 132real / 0x40_0000real);
    let b = a.mul(c, l);
    lemma_about_plus(c, unity, 1real, 0real, b, (amount(p) - 1real) * amount(l), 132real / 0x40_0000real, 65real, 200real / 0x40_0000real);
    lemma_widened(c, unity.add(c, b));
}

/// How far a grain's patch has played at a time.
proof fn lemma_played<K: Fn(Op, Width, u64, u64) -> u64>(c: &Calc<K>, look: Look, ev: GrainEvent, t: F64)
    requires
        rounds(c),
        rounds_doubles(c),
        watchable(look, ev, t),
    ensures
        ({
            let since = amount_of_double(t) - amount_of_double(ev.onset);
            about_double(
                t.sub(c, ev.onset).mul(c, visual_rate(c, look.link, ev)),
                since * linked_rate(look, ev),
                (1real + size(since)) / 0x2000real,
            )
        }),
        size((amount_of_double(t) - amount_of_double(ev.onset)) * linked_rate(look, ev)) <= 0x1000_0000real,
{
    let (x, y) = (amount_of_double(t), amount_of_double(ev.onset));
    let since = x - y;
    let m = size(since);
    lemma_rate(c, look, ev);
    lemma_about_less_double(c, t, x, 0real, ev.onset, y, 0real, 0x20_0000real, 1real / 0x10_0000real);
    let r = linked_rate(look, ev);
    lemma_about_times_double(
        c,
        t.sub(c, ev.onset),
        since,
        1real / 0x10_0000real,
        m,
        visual_rate(c, look.link, ev),
        r,
        1real / 0x4000real,
        66real,
        (1real + m) / 0x2000real,
    );
}

/// A grain that plays forward shows its source from where it reads on, moving along with the
/// clock at the rate that its pitch is linked to.
pub proof fn law_forward_grains_move_with_the_clock<K: Fn(Op, Width, u64, u64) -> u64>(c: &Calc<K>, look: Look, ev: GrainEvent, t: F64)
    requires
        rounds(c),
        rounds_doubles(c),
        watchable(look, ev, t),
        !(ev.reverse && look.link.reverse_video),
    ensures
        ({
            let since = amount_of_double(t) - amount_of_double(ev.onset);
            about_double(
                draw_of(c, look, ev, t).src_time,
                amount_of_double(ev.source_pos) + since * linked_rate(look, ev),
                (1real + size(since)) / 0x1000real,
            )
        }),
        amount(look.link.pitch_to_rate) == 1real ==> linked_rate(look, ev) == amount(ev.pitch_ratio),
        amount(look.link.pitch_to_rate) == 0real ==> linked_rate(look, ev) == 1real,
{
    let since = amount_of_double(t) - amount_of_double(ev.onset);
    let m = size(since);
    lemma_played(c, look, ev, t);
    let r = linked_rate(look, ev);
    lemma_about_plus_double(
        c,
        ev.source_pos,
        amount_of_double(ev.source_pos),
        0real,
        t.sub(c, ev.onset).mul(c, visual_rate(c, look.link, ev)),
        since * r,
        (1real + m) / 0x2000real,
        0x2000_0000real,
        (1real + m) / 0x1000real,
    );
    let (p, l) = (amount(ev.pitch_ratio) - 1real, amount(look.link.pitch_to_rate));
    assert((l == 1real ==> p * l == p) && (l == 0real ==> p * l == 0real)) by (nonlinear_arith);
}

/// A reversed grain whose video is reversed with it shows its source from as far on as the
/// grain will play, and runs back with the clock.
pub proof fn law_reversed_grains_run_back<K: Fn(Op, Width, u64, u64) -> u64>(c: &Calc<K>, look: Look, ev: GrainEvent, t: F64)
    requires
        rounds(c),
        rounds_doubles(c),
        watchable(look, ev, t),
        ev.reverse && look.link.reverse_video,
    ensures
        ({
            let since = amount_of_double(t) - amount_of_double(ev.onset);
            about_double(
                draw_of(c, look, ev, t).src_time,
                amount_of_double(ev.source_pos) + amount(ev.duration) * linked_rate(look, ev) - since * linked_rate(look, ev),
                (1real + size(since) + amount(ev.duration)) / 0x800real,
            )
        }),
{
    let since = amount_of_double(t) - amount_of_double(ev.onset);
    let m = size(since);
    let r = linked_rate(look, ev);
    let n = amount(ev.duration);
    lemma_played(c, look, ev, t);
    lemma_rate(c, look, ev);
    lemma_widened(c, ev.duration);
    let d = ev.duration.to_f64(c);
    let rate = visual_rate(c, look.link, ev);
    lemma_about_times_double(c, d, n, 0real, n, rate, r, 1real / 0x4000real, 66real, (1real + n) / 0x2000real);
    let a = d.mul(c, rate);
    lemma_about_plus_double(
        c,
        ev.source_pos,
        amount_of_double(ev.source_pos),
        0real,
        a,
        n * r,
        (1real + n) / 0x2000real,
        0x2000_0000real,
        (1real + n) / 0x1000real,
    );
    lemma_about_less_double(
        c,
        ev.source_pos.add(c, a),
        amount_of_double(ev.source_pos) + n * r,
        (1real + n) / 0x1000real,
        t.sub(c, ev.onset).mul(c, rate),
        since * r,
        (1real + m) / 0x2000real,
        0x4000_0000real,
        (1real + m + n) / 0x800real,
    );
}

/// At its onset a grain that plays forward shows exactly where it reads its source.
pub proof fn law_grains_show_where_they_start<K: Fn(Op, Width, u64, u64) -> u64>(c: &Calc<K>, look: Look, ev: GrainEvent, t: F64)
    requires
        rounds(c),
        rounds_doubles(c),
        watchable(look, ev, t),
        !(ev.reverse && look.link.reverse_video),
        amount_of_double(t) == amount_of_double(ev.onset),
    ensures
        amount_of_double(draw_of(c, look, ev, t).src_time) == amount_of_double(ev.source_pos),
{
    let zero = double(0);
    lemma_order_double(zero, zero);
    lemma_rate(c, look, ev);
    let rate = visual_rate(c, look.link, ev);
    lemma_exactly_double(c, t, ev.onset, zero);
    let d = t.sub(c, ev.onset);
    let (x, y) = (amount_of_double(d), amount_of_double(rate));
    assert(x * y == 0real) by (nonlinear_arith)
        requires
            x == 0real,
    ;
    lemma_exactly_double(c, d, rate, zero);
    lemma_exactly_double(c, ev.source_pos, d.mul(c, rate), ev.source_pos);
}

// ------------------------------------------------------------------- the look

/// A grain is as opaque as its envelope and its gain say, each as far as it is linked: not
/// linked at all it is opaque, and it is never more than opaque.
#[verifier::rlimit(30)]
pub proof fn law_opacity_follows_envelope_and_gain<K: Fn(Op, Width, u64, u64) -> u64>(c: &Calc<K>, look: Look, ev: GrainEvent, t: F64)
    requires
        rounds(c),
        ev.gain.finite() && size(amount(ev.gain)) <= 16real,
        look.link.envelope_to_opacity.finite() && 0real <= amount(look.link.envelope_to_opacity) <= 1real,
        look.link.gain_to_opacity.finite() && 0real <= amount(look.link.gain_to_opacity) <= 1real,
        ({
            let env = grain_env_skewed(c, grain_phase(c, ev, t), ev.envelope, ev.env_skew);
            env.finite() && -1real <= amount(env) <= 2real
        }),
    ensures
        ({
            let env = amount(grain_env_skewed(c, grain_phase(c, ev, t), ev.envelope, ev.env_skew));
            let gain = if amount(ev.gain) < 3real / 2real {
                amount(ev.gain)
            } else {
                3real / 2real
            };
            let by_envelope = 1real + (env - 1real) * amount(look.link.envelope_to_opacity);
            let by_gain = 1real + (gain - 1real) * amount(look.link.gain_to_opacity);
            about(
                draw_of(c, look, ev, t).alpha,
                kept_within(by_envelope * by_gain, 0real, 1real),
                1real / 0x1000real,
            )
        }),
{
    lemma_constants();
    let u = 1real / 0x40_0000real;
    let (zero, unity) = (single(0), single(0x3f80_0000));
    let env = grain_env_skewed(c, grain_phase(c, ev, t), ev.envelope, ev.env_skew);
    let (e, g) = (look.link.envelope_to_opacity, look.link.gain_to_opacity);
    let (ee, gg) = (amount(e), amount(g));
    lemma2_to64();
    let top = single(0x3fc0_0000);
    lemma_constant(0x3fc0_0000, 0xc0_0000, 127);
    assert(pow2(23) as real == 0x80_0000real);
    assert(amount(top) * 0x80_0000real == 0xc0_0000real);
    lemma_greater(ev.gain, top);
    let gain = ev.gain.lesser(top);
    let (v, w) = (amount(env) - 1real, amount(gain) - 1real);
    lemma_about_less(c, env, amount(env), 0real, unity, 1real, 0real, 2real, 3real * u);
    let a1 = env.sub(c, unity);
    lemma_about_times(c, a1, v, 3real * u, 2real, e, ee, 0real, 1real, 8real * u);
    let a2 = a1.mul(c, e);
    lemma_about_plus(c, unity, 1real, 0real, a2, v * ee, 8real * u, 3real, 13real * u);
    let a3 = unity.add(c, a2);
    lemma_about_less(c, gain, amount(gain), 0real, unity, 1real, 0real, 17real, 18real * u);
    let b1 = gain.sub(c, unity);
    lemma_about_times(c, b1, w, 18real * u, 17real, g, gg, 0real, 1real, 37real * u);
    let b2 = b1.mul(c, g);
    lemma_about_plus(c, unity, 1real, 0real, b2, w * gg, 37real * u, 18real, 57real * u);
    let b3 = unity.add(c, b2);
    lemma_about_times(c, a3, 1real + v * ee, 13real * u, 3real, b3, 1real + w * gg, 57real * u, 18real, 500real * u);
    lemma_about_kept(a3.mul(c, b3), (1real + v * ee) * (1real + w * gg), 500real * u, zero, unity);
}

/// A grain's colour is turned by as many degrees as the link says for each semitone of its
/// pitch.
pub proof fn law_hues_turn_with_the_pitch<K: Fn(Op, Width, u64, u64) -> u64>(c: &Calc<K>, look: Look, ev: GrainEvent, t: F64)
    requires
        rounds(c),
        ratio_to_semitones(c, ev.pitch_ratio).finite() && size(amount(ratio_to_semitones(c, ev.pitch_ratio))) <= 256real,
        look.link.pitch_to_hue.finite() && size(amount(look.link.pitch_to_hue)) <= 1024real,
    ensures
        about(
            draw_of(c, look, ev, t).hue_shift,
            amount(ratio_to_semitones(c, ev.pitch_ratio)) * amount(look.link.pitch_to_hue),
            1real / 8real,
        ),
{
    let (s, h) = (ratio_to_semitones(c, ev.pitch_ratio), look.link.pitch_to_hue);
    lemma_about_times(c, s, amount(s), 0real, 256real, h, amount(h), 0real, 1024real, 1real / 8real);
}

/// Whether a clip is placed on an ordinary canvas: a scale from a 64th to four times, an
/// aspect from 1:4 to 8:1, no more than two canvases off the centre.
pub open spec fn placeable(look: Look, ev: GrainEvent) -> bool {
    &&& look.transform.scale.finite() && 1real / 64real <= amount(look.transform.scale) <= 4real
    &&& look.aspect.finite() && 1real / 4real <= amount(look.aspect) <= 8real
    &&& look.transform.x.finite() && size(amount(look.transform.x)) <= 4real
    &&& look.transform.y.finite() && size(amount(look.transform.y)) <= 4real
    &&& look.transform.rotation.finite() && size(amount(look.transform.rotation)) <= 0x1_0000real
    &&& ev.pan.finite() && size(amount(ev.pan)) <= 1real
    &&& look.link.pan_to_x.finite() && 0real <= amount(look.link.pan_to_x) <= 1real
    &&& look.style.scatter_y.finite() && size(amount(look.style.scatter_y)) <= 1real
    &&& ev.duration.finite() && 0real <= amount(ev.duration) <= 8real
    &&& look.style.size_scale.finite() && 0real <= amount(look.style.size_scale) <= 1024real
    &&& look.style.min_size.finite() && look.style.max_size.finite()
    &&& 0real <= amount(look.style.min_size) <= amount(look.style.max_size) <= 4real
}

/// What is left of the bounds on scale and aspect.
proof fn lemma_placeable(look: Look, ev: GrainEvent)
    requires
        placeable(look, ev),
    ensures
        look.transform.scale.max(single(0x3c23_d70a)) == look.transform.scale,
        look.aspect.max(single(0x3c23_d70a)) == look.aspect,
{
    lemma2_to64();
    let least = single(0x3c23_d70a);
    lemma_constant(0x3c23_d70a, 0xa3_d70a, 120);
    assert(pow2(30) as real == 0x4000_0000real);
    assert(amount(least) * 0x4000_0000real == 0xa3_d70areal);
    crate::reals::lemma_compared(look.transform.scale, least);
    crate::reals::lemma_compared(look.aspect, least);
}

/// A grain's picture is a square: as large as its length says, within the style's bounds, and
/// scaled with the clip.
pub proof fn law_long_grains_are_large<K: Fn(Op, Width, u64, u64) -> u64>(c: &Calc<K>, look: Look, ev: GrainEvent, t: F64)
    requires
        rounds(c),
        placeable(look, ev),
    ensures
        ({
            let d = draw_of(c, look, ev, t);
            let want = kept_within(
                amount(ev.duration) * amount(look.style.size_scale),
                amount(look.style.min_size),
                amount(look.style.max_size),
            ) * amount(look.transform.scale);
            &&& d.dest.w == d.dest.h
            &&& d.patch.w == d.patch.h
            &&& about(d.dest.w, want, 1real / 64real)
            &&& about(d.patch.w, kept_within(want, 1real / 20real, 1real), 1real / 32real)
        }),
{
    lemma_constants();
    lemma_placeable(look, ev);
    let (n, k) = (ev.duration, look.style.size_scale);
    let (lo, hi, scale) = (look.style.min_size, look.style.max_size, look.transform.scale);
    let r = amount(n) * amount(k);
    lemma_about_times(c, n, amount(n), 0real, 8real, k, amount(k), 0real, 1024real, 1real / 511real);
    let p = n.mul(c, k);
    lemma_about_kept(p, r, 1real / 511real, lo, hi);
    let q = kept_within(r, amount(lo), amount(hi));
    let f = p.clamped(lo, hi);
    lemma_about_times(c, f, q, 1real / 511real, 4real, scale, amount(scale), 0real, 4real, 1real / 127real);
    lemma2_to64();
    let least = single(0x3d4c_cccd);
    lemma_constant(0x3d4c_cccd, 0xcc_cccd, 122);
    assert(pow2(28) as real == 0x1000_0000real);
    assert(amount(least) * 0x1000_0000real == 0xcc_cccdreal);
    lemma_about_kept(f.mul(c, scale), q * amount(scale), 1real / 127real, least, single(0x3f80_0000));
}

/// How far a grain is drawn to the right of its clip's centre, and below it, before the clip
/// is turned: by its pan, and by its scatter.
pub open spec fn off_right(look: Look, ev: GrainEvent) -> real {
    9real / 20real * amount(ev.pan) * amount(look.link.pan_to_x) * amount(look.transform.scale)
}

pub open spec fn off_down(look: Look, ev: GrainEvent) -> real {
    (amount(scatter(ev.id)) - 1real / 2real) * amount(look.style.scatter_y) * amount(look.transform.scale)
}

/// A scatter number is a number from zero to one.
pub(crate) proof fn lemma_scatter(id: u64)
    ensures
        scatter(id).finite(),
        0real <= amount(scatter(id)) <= 1real,
{
    law_scatter_stays_in_range(id);
    lemma_constants();
    let d = scatter(id);
    assert(d.finite());
    lemma_compared(d, single(0x3f80_0000));
    lemma_compared(single(0), d);
}

/// The offsets of a grain, scaled.
#[verifier::rlimit(30)]
proof fn lemma_offsets<K: Fn(Op, Width, u64, u64) -> u64>(c: &Calc<K>, look: Look, ev: GrainEvent)
    requires
        rounds(c),
        placeable(look, ev),
    ensures
        ({
            let scale = look.transform.scale;
            let half = single(0x3f00_0000);
            let jy = scatter(ev.id).sub(c, half).mul(c, look.style.scatter_y);
            let cx0 = half.add(c, single(0x3ee6_6666).mul(c, ev.pan).mul(c, look.link.pan_to_x));
            let ox = cx0.sub(c, half).mul(c, scale);
            let oy = half.add(c, jy).sub(c, half).mul(c, scale);
            &&& about(ox, off_right(look, ev), 80real / 0x40_0000real)
            &&& about(oy, off_down(look, ev), 80real / 0x40_0000real)
            &&& -4real <= off_right(look, ev) <= 4real
            &&& -4real <= off_down(look, ev) <= 4real
        }),
{
    lemma_constants();
    lemma_scatter(ev.id);
    let u = 1real / 0x40_0000real;
    let (half, scale) = (single(0x3f00_0000), look.transform.scale);
    let (h, sy, pan, link) = (scatter(ev.id), look.style.scatter_y, ev.pan, look.link.pan_to_x);
    lemma2_to64();
    let part = single(0x3ee6_6666);
    lemma_constant(0x3ee6_6666, 0xe6_6666, 125);
    assert(pow2(25) as real == 0x200_0000real);
    assert(amount(part) * 0x200_0000real == 0xe6_6666real);
    let (hh, k) = (amount(h) - 1real / 2real, 9real / 20real);
    lemma_about_less(c, h, amount(h), 0real, half, 1real / 2real, 0real, 1real, 2real * u);
    let a1 = h.sub(c, half);
    lemma_about_times(c, a1, hh, 2real * u, 1real, sy, amount(sy), 0real, 1real, 5real * u);
    let jy = a1.mul(c, sy);
    lemma_about_plus(c, half, 1real / 2real, 0real, jy, hh * amount(sy), 5real * u, 2real, 9real * u);
    let a2 = half.add(c, jy);
    lemma_about_less(c, a2, 1real / 2real + hh * amount(sy), 9real * u, half, 1real / 2real, 0real, 1real, 12real * u);
    let a3 = a2.sub(c, half);
    assert(1real / 2real + hh * amount(sy) - 1real / 2real == hh * amount(sy));
    lemma_about_times(c, a3, hh * amount(sy), 12real * u, 1real, scale, amount(scale), 0real, 4real, 60real * u);
    assert(about(part, k, u));
    lemma_about_times(c, part, k, u, 1real, pan, amount(pan), 0real, 1real, 4real * u);
    let b1 = part.mul(c, pan);
    lemma_about_times(c, b1, k * amount(pan), 4real * u, 1real, link, amount(link), 0real, 1real, 7real * u);
    let b2 = b1.mul(c, link);
    let r = k * amount(pan) * amount(link);
    lemma_about_plus(c, half, 1real / 2real, 0real, b2, r, 7real * u, 2real, 11real * u);
    let b3 = half.add(c, b2);
    lemma_about_less(c, b3, 1real / 2real + r, 11real * u, half, 1real / 2real, 0real, 1real, 14real * u);
    let b4 = b3.sub(c, half);
    assert(1real / 2real + r - 1real / 2real == r);
    lemma_about_times(c, b4, r, 14real * u, 1real, scale, amount(scale), 0real, 4real, 70real * u);
}

/// A grain's picture is centred where the clip is, to the side by its pan and up or down by its
/// scatter, turned about the clip's centre with the clip: by the sine and the cosine of its
/// rotation, across the canvas in units of its width and down in units of its height.
#[verifier::rlimit(60)]
pub proof fn law_grains_are_placed_by_pan_and_scatter<K: Fn(Op, Width, u64, u64) -> u64>(c: &Calc<K>, look: Look, ev: GrainEvent, t: F64)
    requires
        rounds(c),
        waves_stay_in_range(c),
        placeable(look, ev),
    ensures
        ({
            let d = draw_of(c, look, ev, t);
            let (sine, cosine) = (amount(d.rotation.sin(c)), amount(d.rotation.cos(c)));
            let (right, down, aspect) = (off_right(look, ev), off_down(look, ev), amount(look.aspect));
            let across = right * aspect * cosine - down * sine;
            let below = right * aspect * sine + down * cosine;
            &&& d.dest.x.finite() && d.dest.y.finite() && d.dest.w.finite()
            &&& size(
                amount(d.dest.x) + amount(d.dest.w) / 2real - (1real / 2real + across / aspect + amount(look.transform.x) / 2real),
            ) <= 1real / 0x200real
            &&& size(
                amount(d.dest.y) + amount(d.dest.h) / 2real - (1real / 2real + below + amount(look.transform.y) / 2real),
            ) <= 1real / 0x200real
        }),
{
    let d = draw_of(c, look, ev, t);
    let (sr, cr) = (d.rotation.sin(c), d.rotation.cos(c));
    let (px, py) = turned_offsets(c, look, ev, sr, cr);
    let (right, down, aspect) = (off_right(look, ev), off_down(look, ev), amount(look.aspect));
    let (s, k) = (amount(sr), amount(cr));
    let (across, below) = (right * aspect * k - down * s, right * aspect * s + down * k);
    lemma_turned(c, look);
    lemma_wave_amounts(c, d.rotation);
    law_long_grains_are_large(c, look, ev, t);
    lemma_square_size(c, look, ev, t);
    lemma_sides(c, look, ev, t);
    lemma_turned_offsets(c, look, ev, sr, cr);
    assert(about(px.div(c, look.aspect), across / aspect, 3700real / 0x40_0000real) && -144real <= across / aspect <= 144real) by {
        lemma_about_over(c, px, across, 850real / 0x40_0000real, look.aspect, 1real / 4real, 144real, 3700real / 0x40_0000real);
    }
    lemma_centred(c, px.div(c, look.aspect), across / aspect, look.transform.x, d.dest.w);
    lemma_centred(c, py, below, look.transform.y, d.dest.w);
}

/// The offsets of a grain, turned.
spec fn turned_offsets<K: Fn(Op, Width, u64, u64) -> u64>(c: &Calc<K>, look: Look, ev: GrainEvent, sr: F32, cr: F32) -> (F32, F32) {
    let (half, scale) = (single(0x3f00_0000), look.transform.scale);
    let jy = scatter(ev.id).sub(c, half).mul(c, look.style.scatter_y);
    let cx0 = half.add(c, single(0x3ee6_6666).mul(c, ev.pan).mul(c, look.link.pan_to_x));
    let ox = cx0.sub(c, half).mul(c, scale).mul(c, look.aspect);
    let oy = half.add(c, jy).sub(c, half).mul(c, scale);
    (ox.mul(c, cr).sub(c, oy.mul(c, sr)), ox.mul(c, sr).add(c, oy.mul(c, cr)))
}

proof fn lemma_turned_offsets<K: Fn(Op, Width, u64, u64) -> u64>(c: &Calc<K>, look: Look, ev: GrainEvent, sr: F32, cr: F32)
    requires
        rounds(c),
        placeable(look, ev),
        sr.finite() && -1real <= amount(sr) <= 1real,
        cr.finite() && -1real <= amount(cr) <= 1real,
    ensures
        ({
            let (px, py) = turned_offsets(c, look, ev, sr, cr);
            let (right, down, aspect) = (off_right(look, ev), off_down(look, ev), amount(look.aspect));
            let (s, k) = (amount(sr), amount(cr));
            &&& about(px, right * aspect * k - down * s, 850real / 0x40_0000real)
            &&& about(py, right * aspect * s + down * k, 850real / 0x40_0000real)
            &&& -36real <= right * aspect * k - down * s <= 36real
            &&& -36real <= right * aspect * s + down * k <= 36real
        }),
{
    lemma_offsets(c, look, ev);
    let (half, scale) = (single(0x3f00_0000), look.transform.scale);
    let jy = scatter(ev.id).sub(c, half).mul(c, look.style.scatter_y);
    let cx0 = half.add(c, single(0x3ee6_6666).mul(c, ev.pan).mul(c, look.link.pan_to_x));
    let o1 = cx0.sub(c, half).mul(c, scale);
    let oy = half.add(c, jy).sub(c, half).mul(c, scale);
    lemma_rotated(c, o1, off_right(look, ev), oy, off_down(look, ev), sr, cr, look.aspect);
}

/// A grain's picture is no larger than sixteen canvases.
proof fn lemma_square_size<K: Fn(Op, Width, u64, u64) -> u64>(c: &Calc<K>, look: Look, ev: GrainEvent, t: F64)
    requires
        rounds(c),
        placeable(look, ev),
    ensures
        draw_of(c, look, ev, t).dest.w.finite(),
        size(amount(draw_of(c, look, ev, t).dest.w)) <= 18real,
{
    law_long_grains_are_large(c, look, ev, t);
    let q = kept_within(
        amount(ev.duration) * amount(look.style.size_scale),
        amount(look.style.min_size),
        amount(look.style.max_size),
    );
    let k = amount(look.transform.scale);
    assert(0real <= q * k <= 16real) by (nonlinear_arith)
        requires
            0real <= q <= 4real,
            0real <= k <= 4real,
    ;
}

/// Where the sides of a grain's picture are.
proof fn lemma_sides<K: Fn(Op, Width, u64, u64) -> u64>(c: &Calc<K>, look: Look, ev: GrainEvent, t: F64)
    requires
        placeable(look, ev),
    ensures
        ({
            let d = draw_of(c, look, ev, t);
            let (px, py) = turned_offsets(c, look, ev, d.rotation.sin(c), d.rotation.cos(c));
            let (half, two) = (single(0x3f00_0000), single(0x4000_0000));
            &&& d.dest.x == half.add(c, px.div(c, look.aspect)).add(c, look.transform.x.mul(c, half)).sub(c, d.dest.w.div(c, two))
            &&& d.dest.y == half.add(c, py).add(c, look.transform.y.mul(c, half)).sub(c, d.dest.w.div(c, two))
            &&& d.rotation == radians(c, look.transform.rotation)
        }),
{
    lemma_placeable(look, ev);
}

/// Two offsets, turned.
proof fn lemma_rotated<K: Fn(Op, Width, u64, u64) -> u64>(c: &Calc<K>, o1: F32, right: real, oy: F32, down: real, sr: F32, cr: F32, aspect: F32)
    requires
        rounds(c),
        about(o1, right, 80real / 0x40_0000real),
        about(oy, down, 80real / 0x40_0000real),
        -4real <= right <= 4real,
        -4real <= down <= 4real,
        sr.finite() && -1real <= amount(sr) <= 1real,
        cr.finite() && -1real <= amount(cr) <= 1real,
        aspect.finite() && 1real / 4real <= amount(aspect) <= 8real,
    ensures
        ({
            let ox = o1.mul(c, aspect);
            let (px, py) = (ox.mul(c, cr).sub(c, oy.mul(c, sr)), ox.mul(c, sr).add(c, oy.mul(c, cr)));
            let (asp, s, k) = (amount(aspect), amount(sr), amount(cr));
            &&& about(px, right * asp * k - down * s, 850real / 0x40_0000real)
            &&& about(py, right * asp * s + down * k, 850real / 0x40_0000real)
            &&& -36real <= right * asp * k - down * s <= 36real
            &&& -36real <= right * asp * s + down * k <= 36real
        }),
{
    let u = 1real / 0x40_0000real;
    let (asp, s, k) = (amount(aspect), amount(sr), amount(cr));
    lemma_about_times(c, o1, right, 80real * u, 4real, aspect, asp, 0real, 8real, 680real * u);
    let ox = o1.mul(c, aspect);
    let r = right * asp;
    lemma_about_times(c, ox, r, 680real * u, 32real, cr, k, 0real, 1real, 720real * u);
    lemma_about_times(c, ox, r, 680real * u, 32real, sr, s, 0real, 1real, 720real * u);
    lemma_about_times(c, oy, down, 80real * u, 4real, cr, k, 0real, 1real, 90real * u);
    lemma_about_times(c, oy, down, 80real * u, 4real, sr, s, 0real, 1real, 90real * u);
    let (xc, xs, yc, ys) = (ox.mul(c, cr), ox.mul(c, sr), oy.mul(c, cr), oy.mul(c, sr));
    lemma_about_less(c, xc, r * k, 720real * u, ys, down * s, 90real * u, 36real, 850real * u);
    lemma_about_plus(c, xs, r * s, 720real * u, yc, down * k, 90real * u, 36real, 850real * u);
}

/// A side of a square whose middle is `off` from the canvas's, and half of `t` further.
proof fn lemma_centred<K: Fn(Op, Width, u64, u64) -> u64>(c: &Calc<K>, p: F32, off: real, t: F32, w: F32)
    requires
        rounds(c),
        about(p, off, 3700real / 0x40_0000real),
        -144real <= off <= 144real,
        t.finite() && size(amount(t)) <= 4real,
        w.finite() && size(amount(w)) <= 18real,
    ensures
        ({
            let half = single(0x3f00_0000);
            let x = half.add(c, p).add(c, t.mul(c, half)).sub(c, w.div(c, single(0x4000_0000)));
            about(x, 1real / 2real + off + amount(t) / 2real - amount(w) / 2real, 4300real / 0x40_0000real)
        }),
{
    let u = 1real / 0x40_0000real;
    lemma_constants();
    let half = single(0x3f00_0000);
    lemma_about_plus(c, half, 1real / 2real, 0real, p, off, 3700real * u, 145real, 3850real * u);
    lemma_about_times(c, t, amount(t), 0real, 4real, half, 1real / 2real, 0real, 1real / 2real, 3real * u);
    let h = half.add(c, p);
    lemma_about_plus(c, h, 1real / 2real + off, 3850real * u, t.mul(c, half), amount(t) / 2real, 3real * u, 147real, 4010real * u);
    let two = single(0x4000_0000);
    lemma_about_over(c, w, amount(w), 0real, two, 2real, 9real, 20real * u);
    let v = w.div(c, two);
    lemma_about_less(c, h.add(c, t.mul(c, half)), 1real / 2real + off + amount(t) / 2real, 4010real * u, v, amount(w) / 2real, 20real * u, 160real, 4300real * u);
}

/// The rotation in radians is a number.
proof fn lemma_turned<K: Fn(Op, Width, u64, u64) -> u64>(c: &Calc<K>, look: Look)
    requires
        rounds(c),
        look.transform.rotation.finite(),
        size(amount(look.transform.rotation)) <= 0x1_0000real,
    ensures
        radians(c, look.transform.rotation).finite(),
{
    lemma2_to64();
    let k = single(0x3c8e_fa35);
    lemma_constant(0x3c8e_fa35, 0x8e_fa35, 121);
    assert(pow2(29) as real == 0x2000_0000real);
    assert(amount(k) * 0x2000_0000real == 0x8e_fa35real);
    let r = look.transform.rotation;
    lemma_about_times(c, r, amount(r), 0real, 0x1_0000real, k, amount(k), 0real, 1real, 1real);
}

/// Sines and cosines are numbers from -1 to 1.
pub(crate) proof fn lemma_wave_amounts<K: Fn(Op, Width, u64, u64) -> u64>(c: &Calc<K>, x: F32)
    requires
        waves_stay_in_range(c),
        x.finite(),
    ensures
        x.sin(c).finite() && -1real <= amount(x.sin(c)) <= 1real,
        x.cos(c).finite() && -1real <= amount(x.cos(c)) <= 1real,
{
    lemma_wave(c, x);
    lemma_constants();
    lemma_ones();
    lemma_order(x.sin(c), single(0x3f80_0000));
    lemma_order(single(0xbf80_0000), x.sin(c));
    lemma_order(x.cos(c), single(0x3f80_0000));
    lemma_order(single(0xbf80_0000), x.cos(c));
}

/// The part of the source that a position is into.
proof fn lemma_part_read<K: Fn(Op, Width, u64, u64) -> u64>(c: &Calc<K>, pos: F64, len: F64) -> (k: int)
    requires
        rounds_doubles(c),
        converts(c),
        pos.finite() && len.finite() && amount_of_double(len) > 0real,
        0real <= amount_of_double(pos) <= 0x1000real * amount_of_double(len),
    ensures
        ({
            let part = amount_of_double(pos) / amount_of_double(len) - k as real;
            &&& k >= 0
            &&& -1real / 0x1_0000real <= part <= 1real + 1real / 0x1_0000real
            &&& about(pos.div(c, len).fract(c).to_f32(c), part, 4real / 0x40_0000real)
        }),
{
    let (p, n) = (amount_of_double(pos), amount_of_double(len));
    lemma_quotient(p, n);
    let q = p / n;
    assert(0real <= q <= 0x1000real) by (nonlinear_arith)
        requires
            q * n == p,
            n > 0real,
            0real <= p <= 0x1000real * n,
    ;
    lemma_over_within_double(c, pos, len, 0x1000real);
    let ratio = pos.div(c, len);
    lemma_double_sign(c, pos, len);
    let k = lemma_fraction(c, ratio);
    lemma_narrowed(c, ratio.fract(c), 1real);
    k
}

/// A patch is cut out of the source's frame from left to right as the grain reads from its
/// start to its end, as far as there is room beside it, and never outside the frame.
pub proof fn law_patches_follow_the_position<K: Fn(Op, Width, u64, u64) -> u64>(c: &Calc<K>, look: Look, ev: GrainEvent, t: F64) -> (k: int)
    requires
        rounds(c),
        rounds_doubles(c),
        converts(c),
        placeable(look, ev),
        ev.source_pos.finite() && look.source_duration.finite() && amount_of_double(look.source_duration) > 0real,
        0real <= amount_of_double(ev.source_pos) <= 0x1000real * amount_of_double(look.source_duration),
    ensures
        ({
            let d = draw_of(c, look, ev, t);
            let room = 1real - amount(d.patch.w);
            let part = amount_of_double(ev.source_pos) / amount_of_double(look.source_duration) - k as real;
            &&& d.patch.x.finite()
            &&& k >= 0
            &&& -1real / 0x1_0000real <= part <= 1real + 1real / 0x1_0000real
            &&& about(d.patch.x, kept_within(part * room, 0real, room), 1real / 0x1_0000real)
        }),
{
    let u = 1real / 0x40_0000real;
    lemma_constants();
    let d = draw_of(c, look, ev, t);
    let unity = single(0x3f80_0000);
    let w = d.patch.w;
    lemma_patch_size(c, look, ev, t);
    lemma_about_less(c, unity, 1real, 0real, w, amount(w), 0real, 1real, 2real * u);
    let room = unity.sub(c, w);
    let rr = 1real - amount(w);
    lemma_order_double(double(0), look.source_duration);
    lemma_compared_double(double(0), look.source_duration);
    let k = lemma_part_read(c, ev.source_pos, look.source_duration);
    let frac = ev.source_pos.div(c, look.source_duration).fract(c).to_f32(c);
    let part = amount_of_double(ev.source_pos) / amount_of_double(look.source_duration) - k as real;
    lemma_about_times(c, frac, part, 4real * u, 2real, room, rr, 2real * u, 1real, 14real * u);
    lemma_room(frac.mul(c, room), part * rr, 14real * u, room, rr);
    k
}

/// A patch is cut out of the middle of the source's frame, up or down by the grain's scatter,
/// as far as there is room above and below it.
pub proof fn law_patches_follow_the_scatter<K: Fn(Op, Width, u64, u64) -> u64>(c: &Calc<K>, look: Look, ev: GrainEvent, t: F64)
    requires
        rounds(c),
        placeable(look, ev),
    ensures
        ({
            let d = draw_of(c, look, ev, t);
            let room = 1real - amount(d.patch.w);
            let off = (amount(scatter(ev.id)) - 1real / 2real) * amount(look.style.scatter_y);
            about(d.patch.y, kept_within((1real / 2real + off / 2real) * room, 0real, room), 1real / 0x1_0000real)
        }),
{
    let u = 1real / 0x40_0000real;
    lemma_constants();
    lemma_scatter(ev.id);
    let d = draw_of(c, look, ev, t);
    let (half, unity) = (single(0x3f00_0000), single(0x3f80_0000));
    let w = d.patch.w;
    lemma_patch_size(c, look, ev, t);
    lemma_about_less(c, unity, 1real, 0real, w, amount(w), 0real, 1real, 2real * u);
    let room = unity.sub(c, w);
    let rr = 1real - amount(w);
    let (h, sy) = (scatter(ev.id), look.style.scatter_y);
    let hh = amount(h) - 1real / 2real;
    lemma_about_less(c, h, amount(h), 0real, half, 1real / 2real, 0real, 1real, 2real * u);
    let a1 = h.sub(c, half);
    lemma_about_times(c, a1, hh, 2real * u, 1real, sy, amount(sy), 0real, 1real, 5real * u);
    let jy = a1.mul(c, sy);
    let off = hh * amount(sy);
    lemma_about_times(c, jy, off, 5real * u, 1real, half, 1real / 2real, 0real, 1real, 8real * u);
    let a2 = jy.mul(c, half);
    lemma_about_plus(c, half, 1real / 2real, 0real, a2, off / 2real, 8real * u, 2real, 12real * u);
    let a3 = half.add(c, a2);
    lemma_about_times(c, a3, 1real / 2real + off / 2real, 12real * u, 2real, room, rr, 2real * u, 1real, 22real * u);
    lemma_room(a3.mul(c, room), (1real / 2real + off / 2real) * rr, 22real * u, room, rr);
}

/// A patch is from a twentieth of the frame to the whole of it.
proof fn lemma_patch_size<K: Fn(Op, Width, u64, u64) -> u64>(c: &Calc<K>, look: Look, ev: GrainEvent, t: F64)
    requires
        rounds(c),
        placeable(look, ev),
    ensures
        draw_of(c, look, ev, t).patch.w.finite(),
        0real <= amount(draw_of(c, look, ev, t).patch.w) <= 1real,
{
    law_long_grains_are_large(c, look, ev, t);
    lemma_constants();
    lemma2_to64();
    let least = single(0x3d4c_cccd);
    lemma_constant(0x3d4c_cccd, 0xcc_cccd, 122);
    assert(pow2(28) as real == 0x1000_0000real);
    assert(amount(least) * 0x1000_0000real == 0xcc_cccdreal);
    lemma_kept(draw_of(c, look, ev, t).dest.w, least, single(0x3f80_0000));
}

/// What is kept within the room beside a patch.
proof fn lemma_room(x: F32, r: real, e: real, room: F32, rr: real)
    requires
        about(x, r, e),
        room.finite(),
        0real <= rr <= 1real,
        -2real / 0x40_0000real <= amount(room) - rr <= 2real / 0x40_0000real,
        0real <= e <= 40real / 0x40_0000real,
    ensures
        about(x.clamped(single(0), room.max(single(0))), kept_within(r, 0real, rr), 1real / 0x1_0000real),
{
    lemma_constants();
    lemma_greater(room, single(0));
    lemma_about_kept(x, r, e, single(0), room.max(single(0)));
}

/// A quotient of doubles that are not below zero is not below it.
pub(crate) proof fn lemma_double_sign<K: Fn(Op, Width, u64, u64) -> u64>(c: &Calc<K>, a: F64, b: F64)
    requires
        rounds_doubles(c),
        a.finite(),
        b.finite(),
        amount_of_double(a) >= 0real,
        amount_of_double(b) > 0real,
        a.div(c, b).finite(),
    ensures
        amount_of_double(a.div(c, b)) >= 0real,
{
    let zero = F64 { bits: 0 };
    lemma_order_double(zero, a);
    lemma_order_double(zero, b);
    lemma_order_double(zero, a.div(c, b));
    let n = a.value() * unit();
    vstd::arithmetic::power2::lemma_pow2_pos(1074);
    assert(n >= 0 && zero.value() * b.value() == 0) by (nonlinear_arith)
        requires
            n == a.value() * unit(),
            a.value() >= 0,
            unit() > 0,
            zero.value() == 0,
    ;
    reveal(rounds_doubles);
    assert(crate::rounding_double::rounded(a.div(c, b), n, b.value()));
    if crate::rounding_double::reached(n, b.value()) {
        crate::rounding_double::lemma_at_least(a.div(c, b), n, b.value(), zero);
    }
}

} // verus!
