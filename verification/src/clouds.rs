//! What clouds of grains are like, in numbers: laws of arithmetic that rounds to nearest.
use crate::auto::AutomationLane;
use crate::calc::{Calc, Op, Width};
use crate::dsp::{
    drawn_centred, drawn_unit, law_centred_draws_stay_in_range, law_unit_draws_stay_in_range,
    seeded, stirred, stirred_by,
};
use crate::grain::{
    after_grain, cloud, free, grain, grain_interval, grain_length, grain_pan, grain_pos,
    law_free_ids_count_up, settings_in_force, voice, voices_of, GrainEvent, GrainSettings, Span,
};
use crate::num::{
    double, double_value, law_double_order_is_numeric, law_single_order_is_numeric, single,
    single_value, F32, F64,
};
use crate::rounding;
use crate::rounding::{one, rounds};
use crate::rounding_double;
use crate::rounding_double::{grid, lemma_converted, lemma_remainder, nearest, rounds_doubles, small, unit};
use vstd::arithmetic::power2::{
    lemma2_to64, lemma_pow2_adds, lemma_pow2_pos, lemma_pow2_strictly_increases, lemma_pow2_unfold,
    pow2,
};
use vstd::prelude::*;

verus! {

/// Whether the settings that a grain is made by are numbers.
pub open spec fn numeric(s: GrainSettings) -> bool {
    &&& s.density.finite()
    &&& s.duration.finite()
    &&& s.duration_jitter.finite()
    &&& s.position.finite()
    &&& s.scan_speed.finite()
    &&& s.spray.finite()
    &&& s.pan.finite()
    &&& s.pan_spread.finite()
}

/// Whether a cloud's times are numbers, and its settings are whenever they are asked for.
pub open spec fn tame<K: Fn(Op, Width, u64, u64) -> u64>(c: &Calc<K>, span: Span, settings: GrainSettings, lanes: Seq<AutomationLane>) -> bool {
    &&& span.start.finite()
    &&& span.len.finite()
    &&& span.source_len.finite()
    &&& forall|t: F64| numeric(#[trigger] settings_in_force(c, settings, lanes, span.secs_per_beat, t))
}

/// Where a grain would be read from in a source without an end.
pub open spec fn unwrapped_pos<K: Fn(Op, Width, u64, u64) -> u64>(c: &Calc<K>, s: GrainSettings, source_len: F64, t: F64, j: F32) -> F64 {
    s.position.to_f64(c).mul(c, source_len).add(c, s.scan_speed.to_f64(c).mul(c, t)).add(
        c,
        s.spray.to_f64(c).mul(c, j.to_f64(c)),
    )
}

/// How long a source counts at least, a microsecond.
pub open spec fn round_of(source_len: F64) -> F64 {
    source_len.max(double(0x3eb0_c6f7_a0b5_ed8d))
}

/// Whether a position is that of `whole` within a source: from its start to before its
/// end, or at the end where `whole` is negative and its remainder rounds up to it.
pub open spec fn wrapped(whole: F64, source_len: F64, pos: F64) -> bool {
    let m = round_of(source_len);
    &&& double(0).le(pos)
    &&& pos.lt(m) || (pos.value() == m.value() && whole.value() < 0 && nearest(
        pos,
        whole.value() % m.value(),
        1,
    ))
}

/// Whether a grain's length is from 5 ms to 5 s, and it lies between left and right.
pub open spec fn ranged(e: GrainEvent) -> bool {
    &&& single(0x3ba3_d70a).le(e.duration)
    &&& e.duration.le(single(0x40a0_0000))
    &&& single(0xbf80_0000).le(e.pan)
    &&& e.pan.le(single(0x3f80_0000))
}

/// Whether a grain is one that sounds at clip time `t`, before the clip's end, read from
/// where the draw `j` puts it; within the source, where that position is a number.
pub open spec fn made_at<K: Fn(Op, Width, u64, u64) -> u64>(c: &Calc<K>, span: Span, settings: GrainSettings, lanes: Seq<AutomationLane>, e: GrainEvent, t: F64, j: F32) -> bool {
    let s = settings_in_force(c, settings, lanes, span.secs_per_beat, t);
    let whole = unwrapped_pos(c, s, span.source_len, t, j);
    &&& t.finite()
    &&& double(0).le(t)
    &&& t.lt(span.len)
    &&& e.onset == span.start.add(c, t)
    &&& e.source_pos == whole.rem_euclid(c, round_of(span.source_len))
    &&& whole.finite() ==> wrapped(whole, span.source_len, e.source_pos)
}

/// Whether a grain is one of some time within the clip.
#[verifier::opaque]
pub open spec fn made_within<K: Fn(Op, Width, u64, u64) -> u64>(c: &Calc<K>, span: Span, settings: GrainSettings, lanes: Seq<AutomationLane>, e: GrainEvent) -> bool {
    exists|t: F64, j: F32| #[trigger] made_at(c, span, settings, lanes, e, t, j)
}

proof fn lemma_units()
    ensures
        one() > 0,
        unit() > 0,
        unit() == one() * pow2(925),
        pow2(925) > 0,
        single_value(0) == 0,
        double_value(0) == 0,
        single(0x3f80_0000).value() == one(),
        single(0xbf80_0000).value() == -one(),
        double(0x3ff0_0000_0000_0000).value() == unit(),
{
    lemma_pow2_pos(149);
    lemma_pow2_pos(1074);
    lemma_pow2_pos(925);
    lemma_pow2_adds(149, 925);
    lemma2_to64();
    assert(0x3f80_0000int / 0x80_0000 == 127 && 0x3f80_0000int % 0x80_0000 == 0);
    lemma_pow2_adds(23, 126);
    assert(single_value(0x3f80_0000) == 0x80_0000 * pow2(126));
    assert(single(0x3f80_0000).value() == single_value(0x3f80_0000));
    assert(single(0xbf80_0000).mag() == 0x3f80_0000);
    assert(0x3ff0_0000_0000_0000int / 0x10_0000_0000_0000 == 1023 && 0x3ff0_0000_0000_0000int
        % 0x10_0000_0000_0000 == 0);
    lemma_pow2_adds(20, 32);
    lemma_pow2_adds(52, 1022);
    assert(double_value(0x3ff0_0000_0000_0000) == 0x10_0000_0000_0000 * pow2(1022));
    assert(double(0x3ff0_0000_0000_0000).value() == double_value(0x3ff0_0000_0000_0000));
}

/// A draw, as a single, lies within one of zero.
proof fn lemma_draw(x: u64)
    ensures
        rounding::small(drawn_centred(x), 0),
        rounding::small(drawn_unit(x), 0),
        0 <= drawn_unit(x).value(),
{
    lemma_units();
    law_centred_draws_stay_in_range(x);
    law_unit_draws_stay_in_range(x);
    let (j, u) = (drawn_centred(x), drawn_unit(x));
    law_single_order_is_numeric(single(0xbf80_0000), j);
    law_single_order_is_numeric(j, single(0x3f80_0000));
    law_single_order_is_numeric(single(0), u);
    law_single_order_is_numeric(u, single(0x3f80_0000));
}

/// Converted, a small single is as small.
proof fn lemma_small_converted<K: Fn(Op, Width, u64, u64) -> u64>(c: &Calc<K>, a: F32, p: nat)
    requires
        rounds_doubles(c),
        rounding::small(a, p),
    ensures
        small(a.to_f64(c), p),
        a.to_f64(c).value() == a.value() * pow2(925),
        0 <= a.value() ==> 0 <= a.to_f64(c).value(),
{
    lemma_units();
    lemma_converted(c, a);
    lemma_pow2_adds(p + 149, 925);
    let (v, t, k) = (a.value(), pow2(p + 149) as int, pow2(925) as int);
    assert(-(t * k) <= v * k <= t * k && (0 <= v ==> 0 <= v * k)) by (nonlinear_arith)
        requires
            -t <= v <= t,
            k > 0,
    ;
}

proof fn lemma_wider(x: F64, p: nat, q: nat)
    requires
        small(x, p),
        p <= q,
    ensures
        small(x, q),
{
    if p < q {
        lemma_pow2_strictly_increases(p + 1074, q + 1074);
    }
}

/// The time from one grain to the next is not negative, and below 256 seconds.
proof fn lemma_interval<K: Fn(Op, Width, u64, u64) -> u64>(c: &Calc<K>, density: F32, x: u64)
    requires
        rounds_doubles(c),
        density.finite(),
    ensures
        small(grain_interval(c, density, drawn_unit(x)), 8),
        0 <= grain_interval(c, density, drawn_unit(x)).value(),
{
    lemma_units();
    lemma_draw(x);
    let one64 = double(0x3ff0_0000_0000_0000);
    let half = double(0x3fe0_0000_0000_0000);
    let zero = double(0);
    let u64th = unit();
    // The mean interval.
    let d32 = density.max(single(0x3c23_d70a));
    law_single_order_is_numeric(single(0x3c00_0000), d32);
    assert(0x3c00_0000int / 0x80_0000 == 120 && 0x3c00_0000int % 0x80_0000 == 0);
    lemma2_to64();
    lemma_pow2_adds(23, 119);
    lemma_pow2_adds(7, 142);
    assert(single_value(0x3c00_0000) == 0x80_0000 * pow2(119));
    assert(single(0x3c00_0000).value() == single_value(0x3c00_0000));
    assert(one() == 128 * single(0x3c00_0000).value());
    lemma_converted(c, d32);
    let den = d32.to_f64(c);
    let (dv, sv, k) = (den.value(), d32.value(), pow2(925) as int);
    assert(128 * dv >= u64th && dv > 0) by (nonlinear_arith)
        requires
            dv == sv * k,
            128 * sv >= one(),
            u64th == one() * k,
            k > 0,
            u64th > 0,
    ;
    let q = one64.div(c, den);
    lemma_pow2_adds(7, 1074);
    rounding_double::lemma_grid(1, 1082);
    let y = grid(1, 1082);
    assert(y.value() == 128 * u64th);
    assert(u64th * u64th <= y.value() * dv) by (nonlinear_arith)
        requires
            y.value() == 128 * u64th,
            128 * dv >= u64th,
            u64th > 0,
    ;
    law_double_order_is_numeric(y, double(0x7fef_ffff_ffff_ffff));
    assert(u64th * u64th <= double(0x7fef_ffff_ffff_ffff).value() * dv) by (nonlinear_arith)
        requires
            y.value() == 128 * u64th,
            y.value() <= double(0x7fef_ffff_ffff_ffff).value(),
            128 * dv >= u64th,
            dv > 0,
            u64th > 0,
    ;
    assert(0 <= u64th * u64th) by (nonlinear_arith);
    rounding_double::lemma_in_reach(u64th * u64th, dv);
    rounding_double::lemma_div(c, one64, den);
    rounding_double::lemma_at_most(q, u64th * u64th, dv, y);
    assert(zero.value() * dv == 0) by (nonlinear_arith)
        requires
            zero.value() == 0,
    ;
    rounding_double::lemma_at_least(q, u64th * u64th, dv, zero);
    assert(small(q, 7));
    // The jitter on it.
    let u = drawn_unit(x).to_f64(c);
    lemma_small_converted(c, drawn_unit(x), 0);
    law_double_order_is_numeric(zero, half);
    law_double_order_is_numeric(half, one64);
    rounding_double::lemma_add_small(c, half, u, 0);
    let j = half.add(c, u);
    rounding_double::lemma_at_least(j, half.value() + u.value(), 1, zero);
    rounding_double::lemma_mul_small(c, q, 7, j, 1);
    let (qv, jv) = (q.value(), j.value());
    assert(0 <= qv * jv && zero.value() * u64th == 0) by (nonlinear_arith)
        requires
            0 <= qv,
            0 <= jv,
            zero.value() == 0,
    ;
    rounding_double::lemma_at_least(q.mul(c, j), qv * jv, u64th, zero);
}

/// What a draw scales stays a number.
proof fn lemma_scaled_by_draw<K: Fn(Op, Width, u64, u64) -> u64>(c: &Calc<K>, a: F32, j: F32)
    requires
        rounds(c),
        a.finite(),
        rounding::small(j, 0),
    ensures
        a.mul(c, j).finite(),
        rounding::apart(a.value(), 0) <= one() ==> rounding::apart(a.mul(c, j).value(), 0) <= one(),
{
    lemma_units();
    let (u, v, w) = (one(), a.value(), j.value());
    let top = single(0x7f7f_ffff).value();
    rounding::lemma_largest(a);
    assert(-(top * u) <= v * w <= top * u) by (nonlinear_arith)
        requires
            -top <= v <= top,
            -u <= w <= u,
    ;
    rounding::lemma_in_reach(v * w, u);
    rounding::lemma_mul(c, a, j);
    if rounding::apart(v, 0) <= u {
        let m = a.mul(c, j);
        let (unit32, less) = (single(0x3f80_0000), single(0xbf80_0000));
        assert(v * w <= u * u && -(u * u) <= v * w && (-u) * u == -(u * u)) by (nonlinear_arith)
            requires
                -u <= v <= u,
                -u <= w <= u,
        ;
        rounding::lemma_at_most(m, v * w, u, unit32);
        rounding::lemma_at_least(m, v * w, u, less);
    }
}

proof fn lemma_length_ranged<K: Fn(Op, Width, u64, u64) -> u64>(c: &Calc<K>, s: GrainSettings, x: u64)
    requires
        rounds(c),
        numeric(s),
    ensures
        single(0x3ba3_d70a).le(grain_length(c, s, drawn_centred(x))),
        grain_length(c, s, drawn_centred(x)).le(single(0x40a0_0000)),
{
    let j = drawn_centred(x);
    lemma_draw(x);
    lemma_units();
    let unit32 = single(0x3f80_0000);
    let wide = s.duration_jitter.mul(c, j);
    lemma_scaled_by_draw(c, s.duration_jitter, j);
    rounding::lemma_largest(wide);
    rounding::lemma_add(c, unit32, wide);
    let by = unit32.add(c, wide);
    rounding::lemma_product(c, s.duration, by);
    let n = s.duration.value() * by.value();
    if rounding::reached(n, one()) {
        rounding::lemma_finite(s.duration.mul(c, by), n, one());
    }
}

proof fn lemma_pan_ranged<K: Fn(Op, Width, u64, u64) -> u64>(c: &Calc<K>, s: GrainSettings, x: u64)
    requires
        rounds(c),
        numeric(s),
    ensures
        single(0xbf80_0000).le(grain_pan(c, s, drawn_centred(x))),
        grain_pan(c, s, drawn_centred(x)).le(single(0x3f80_0000)),
{
    let j = drawn_centred(x);
    lemma_draw(x);
    lemma_units();
    let spread = s.pan_spread.clamp(single(0), single(0x3f80_0000));
    law_single_order_is_numeric(single(0), spread);
    law_single_order_is_numeric(spread, single(0x3f80_0000));
    let off = spread.mul(c, j);
    lemma_scaled_by_draw(c, spread, j);
    rounding::lemma_largest(s.pan);
    rounding::lemma_add(c, s.pan, off);
}

#[verifier::spinoff_prover]
#[verifier::rlimit(30)]
proof fn lemma_position_wrapped<K: Fn(Op, Width, u64, u64) -> u64>(c: &Calc<K>, s: GrainSettings, source_len: F64, t: F64, j: F32)
    requires
        rounds_doubles(c),
        source_len.finite(),
    ensures
        ({
            let whole = unwrapped_pos(c, s, source_len, t, j);
            &&& grain_pos(c, s, source_len, t, j) == whole.rem_euclid(c, round_of(source_len))
            &&& whole.finite() ==> wrapped(whole, source_len, grain_pos(c, s, source_len, t, j))
        }),
{
    let zero = double(0);
    let m = round_of(source_len);
    assert(double_value(0) == 0);
    law_double_order_is_numeric(zero, m);
    let whole = unwrapped_pos(c, s, source_len, t, j);
    if whole.finite() {
        lemma_remainder(c, whole, m);
        let pos = whole.rem_euclid(c, m);
        law_double_order_is_numeric(zero, pos);
        law_double_order_is_numeric(pos, m);
        law_double_order_is_numeric(m, pos);
        if whole.value() >= 0 {
            lemma_kept_remainder(whole, m, pos);
        }
    }
}

/// The step of a double's pattern: what its value is a multiple of.
spec fn grain_of(x: F64) -> int {
    if x.mag() < 0x10_0000_0000_0000 {
        1
    } else {
        pow2((x.mag() / 0x10_0000_0000_0000 - 1) as nat) as int
    }
}

/// How often a double's step goes into its size.
spec fn steps_of(x: F64) -> int {
    if x.mag() < 0x10_0000_0000_0000 {
        x.mag()
    } else {
        0x10_0000_0000_0000 + x.mag() % 0x10_0000_0000_0000
    }
}

/// One pattern down, a number is at most a step smaller.
proof fn lemma_value_before(mag: int)
    requires
        mag > 0,
    ensures
        double_value(mag) - (if mag < 0x10_0000_0000_0000 {
            1
        } else {
            pow2((mag / 0x10_0000_0000_0000 - 1) as nat) as int
        }) <= double_value(mag - 1),
{
    let (e, f) = (mag / 0x10_0000_0000_0000, mag % 0x10_0000_0000_0000);
    lemma2_to64();
    if mag > 0x10_0000_0000_0000 {
        let g = pow2((e - 1) as nat) as int;
        assert(double_value(mag) == (0x10_0000_0000_0000 + f) * g);
        if f > 0 {
            assert((mag - 1) / 0x10_0000_0000_0000 == e && (mag - 1) % 0x10_0000_0000_0000 == f - 1);
            assert(double_value(mag - 1) == (0x10_0000_0000_0000 + (f - 1)) * g);
            assert((0x10_0000_0000_0000 + f) * g - g == (0x10_0000_0000_0000 + (f - 1)) * g) by (nonlinear_arith);
        } else {
            assert((mag - 1) / 0x10_0000_0000_0000 == e - 1 && (mag - 1) % 0x10_0000_0000_0000 == 0xf_ffff_ffff_ffff);
            let h = pow2((e - 2) as nat) as int;
            assert(e - 1 - 1 == e - 2);
            assert(double_value(mag - 1) == 0x1f_ffff_ffff_ffff * h);
            lemma_pow2_unfold((e - 1) as nat);
            lemma_pow2_pos((e - 2) as nat);
            assert(0x10_0000_0000_0000 * (2 * h) - 2 * h <= 0x1f_ffff_ffff_ffff * h) by (nonlinear_arith)
                requires
                    h > 0,
            ;
        }
    } else if mag == 0x10_0000_0000_0000 {
        assert(double_value(0x10_0000_0000_0000) == 0x10_0000_0000_0000 * pow2(0));
    }
}

/// The pattern before that of a positive double is at most a step below it.
proof fn lemma_one_before(m: F64)
    requires
        m.finite(),
        m.value() > 0,
    ensures
        ({
            let before = F64 { bits: (m.bits - 1) as u64 };
            &&& before.finite()
            &&& m.value() - grain_of(m) <= before.value() < m.value()
        }),
{
    let before = F64 { bits: (m.bits - 1) as u64 };
    assert(double_value(0) == 0);
    law_double_order_is_numeric(double(0), m);
    law_double_order_is_numeric(m, double(0));
    assert(m.mag() > 0 && !m.neg());
    assert(before.mag() == m.mag() - 1 && !before.neg());
    law_double_order_is_numeric(before, m);
    lemma_value_before(m.mag());
    assert(before.value() == double_value(m.mag() - 1));
    assert(m.value() == double_value(m.mag()));
}

/// The remainder of a number that is not negative stays below the divisor: both are
/// multiples of the divisor's step.
proof fn lemma_kept_remainder(whole: F64, m: F64, pos: F64)
    requires
        whole.finite(),
        m.finite(),
        pos.finite(),
        whole.value() >= 0,
        m.value() > 0,
        nearest(pos, whole.value() % m.value(), 1),
    ensures
        pos.value() < m.value(),
{
    let (a, b) = (whole.value(), m.value());
    let before = F64 { bits: (m.bits - 1) as u64 };
    lemma_one_before(m);
    let r = a % b;
    if a < b {
        assert(r == a) by (nonlinear_arith)
            requires
                r == a % b,
                0 <= a < b,
        ;
        rounding_double::lemma_at_most(pos, r, 1, whole);
    } else {
        let (g, k) = (grain_of(m), steps_of(m));
        assert(double_value(0) == 0);
        law_double_order_is_numeric(double(0), m);
        law_double_order_is_numeric(m, double(0));
        law_double_order_is_numeric(double(0), whole);
        law_double_order_is_numeric(m, whole);
        assert(whole.mag() >= m.mag() && !whole.neg());
        assert(b == k * g);
        let (ga, ka) = (grain_of(whole), steps_of(whole));
        assert(a == ka * ga);
        let e = whole.mag() / 0x10_0000_0000_0000;
        let d = m.mag() / 0x10_0000_0000_0000;
        // The larger number's step is a multiple of the smaller one's.
        let t: int = if m.mag() < 0x10_0000_0000_0000 {
            ga
        } else {
            pow2((e - d) as nat) as int
        };
        assert(ga == t * g) by {
            if m.mag() >= 0x10_0000_0000_0000 {
                lemma_pow2_adds((e - d) as nat, (d - 1) as nat);
            }
        }
        let i = ka * t;
        assert(a == i * g) by (nonlinear_arith)
            requires
                a == ka * ga,
                ga == t * g,
                i == ka * t,
        ;
        let q = a / b;
        assert(g > 0) by {
            lemma_pow2_pos((d - 1) as nat);
        }
        assert(r <= b - g) by (nonlinear_arith)
            requires
                r == a % b,
                q == a / b,
                a == i * g,
                b == k * g,
                b > 0,
                g > 0,
        {
            assert(r == a - q * b);
            assert(r == (i - q * k) * g);
            assert(r < b);
            assert((i - q * k) < k);
            assert((i - q * k) * g <= (k - 1) * g);
        }
        rounding_double::lemma_at_most(pos, r, 1, before);
    }
}

/// A grain's fields are in their ranges, and it is read from within the source.
proof fn lemma_voice_ranged<K: Fn(Op, Width, u64, u64) -> u64>(c: &Calc<K>, span: Span, settings: GrainSettings, lanes: Seq<AutomationLane>, t: F64, x: u64, v: int, id: u64)
    requires
        rounds(c),
        rounds_doubles(c),
        tame(c, span, settings, lanes),
        t.finite(),
        double(0).le(t),
        t.lt(span.len),
    ensures
        ({
            let s = settings_in_force(c, settings, lanes, span.secs_per_beat, t);
            let e = voice(c, span, s, t, x, v, id);
            &&& ranged(e)
            &&& made_within(c, span, settings, lanes, e)
            &&& e.onset == span.start.add(c, t)
        }),
{
    reveal(made_within);
    let s = settings_in_force(c, settings, lanes, span.secs_per_beat, t);
    lemma_length_ranged(c, s, x);
    lemma_pan_ranged(c, s, stirred_by(x, (4 + 2 * v) as nat));
    lemma_position_wrapped(c, s, span.source_len, t, drawn_centred(stirred_by(x, 1)));
    let e = voice(c, span, s, t, x, v, id);
    assert(made_at(c, span, settings, lanes, e, t, drawn_centred(stirred_by(x, 1))));
}

/// The onset of a grain that sounds at clip time `t`.
proof fn lemma_onset<K: Fn(Op, Width, u64, u64) -> u64>(c: &Calc<K>, span: Span, t: F64, later: F64)
    requires
        rounds_doubles(c),
        span.start.finite(),
        t.finite(),
        later.finite(),
        0 <= t.value() <= later.value(),
    ensures
        span.start.le(span.start.add(c, t)),
        span.start.add(c, t).le(span.start.add(c, later)),
        t.value() == 0 ==> span.start.add(c, t).le(span.start),
{
    let (n, m) = (span.start.value() + t.value(), span.start.value() + later.value());
    let (a, b) = (span.start.add(c, t), span.start.add(c, later));
    rounding_double::lemma_sum(c, span.start, t);
    rounding_double::lemma_sum(c, span.start, later);
    rounding_double::lemma_largest(span.start);
    lemma_pow2_pos(2044);
    if rounding_double::reached(n, 1) {
        rounding_double::lemma_finite(a, n, 1);
        rounding_double::lemma_at_least(a, n, 1, span.start);
        law_double_order_is_numeric(span.start, a);
        if rounding_double::reached(m, 1) {
            rounding_double::lemma_finite(b, m, 1);
            rounding_double::lemma_order(a, n, b, m, 1);
            law_double_order_is_numeric(a, b);
        }
        if t.value() == 0 {
            rounding_double::lemma_at_most(a, n, 1, span.start);
            law_double_order_is_numeric(a, span.start);
        }
    }
}

/// Whether events come in the order of their onsets, none before clip time `t`, each one
/// that sounds at a time within the clip, with all fields in their ranges.
pub open spec fn forward<K: Fn(Op, Width, u64, u64) -> u64>(c: &Calc<K>, span: Span, settings: GrainSettings, lanes: Seq<AutomationLane>, t: F64, events: Seq<GrainEvent>) -> bool {
    &&& forall|i: int|
        0 <= i < events.len() ==> span.start.add(c, t).le((#[trigger] events[i]).onset)
            && events[i].onset.le(span.start.add(c, span.len)) && ranged(events[i]) && made_within(
            c,
            span,
            settings,
            lanes,
            events[i],
        )
    &&& forall|i: int, j: int|
        0 <= i <= j < events.len() ==> (#[trigger] events[i]).onset.le((#[trigger] events[j]).onset)
}

/// The time of the next grain.
proof fn lemma_next_time<K: Fn(Op, Width, u64, u64) -> u64>(c: &Calc<K>, t: F64, density: F32, x: u64)
    requires
        rounds_doubles(c),
        t.finite(),
        0 <= t.value(),
        density.finite(),
    ensures
        t.add(c, grain_interval(c, density, drawn_unit(x))).finite(),
        t.value() <= t.add(c, grain_interval(c, density, drawn_unit(x))).value(),
{
    let iv = grain_interval(c, density, drawn_unit(x));
    lemma_interval(c, density, x);
    lemma_wider(iv, 8, 10);
    rounding_double::lemma_largest(t);
    rounding_double::lemma_add(c, t, iv);
    rounding_double::lemma_at_least(t.add(c, iv), t.value() + iv.value(), 1, t);
}

/// The voices of one grain.
proof fn lemma_grain_forward<K: Fn(Op, Width, u64, u64) -> u64>(c: &Calc<K>, span: Span, settings: GrainSettings, lanes: Seq<AutomationLane>, t: F64, y: u64, id: u64)
    requires
        rounds(c),
        rounds_doubles(c),
        tame(c, span, settings, lanes),
        t.finite(),
        0 <= t.value(),
        t.lt(span.len),
    ensures
        ({
            let s = settings_in_force(c, settings, lanes, span.secs_per_beat, t);
            let g = grain(c, span, s, t, y, id);
            &&& forward(c, span, settings, lanes, t, g)
            &&& forall|i: int| 0 <= i < g.len() ==> (#[trigger] g[i]).onset == span.start.add(c, t)
        }),
{
    law_double_order_is_numeric(t, span.len);
    assert(double_value(0) == 0);
    law_double_order_is_numeric(double(0), t);
    lemma_onset(c, span, t, span.len);
    lemma_onset(c, span, t, t);
    let s = settings_in_force(c, settings, lanes, span.secs_per_beat, t);
    let g = grain(c, span, s, t, y, id);
    assert forall|i: int| 0 <= i < g.len() implies (#[trigger] g[i]).onset == span.start.add(c, t) && ranged(
        g[i],
    ) && made_within(c, span, settings, lanes, g[i]) by {
        assert(g[i] == voice(c, span, s, t, y, i, id.wrapping_add(i as u64)));
        lemma_voice_ranged(c, span, settings, lanes, t, y, i, id.wrapping_add(i as u64));
    }
}

/// A grain, and what sounds no earlier.
proof fn lemma_forward_joined<K: Fn(Op, Width, u64, u64) -> u64>(c: &Calc<K>, span: Span, settings: GrainSettings, lanes: Seq<AutomationLane>, t: F64, t2: F64, g: Seq<GrainEvent>, rest: Seq<GrainEvent>)
    requires
        forward(c, span, settings, lanes, t, g),
        forall|i: int| 0 <= i < g.len() ==> (#[trigger] g[i]).onset == span.start.add(c, t),
        forward(c, span, settings, lanes, t2, rest),
        span.start.add(c, t).le(span.start.add(c, t2)),
    ensures
        forward(c, span, settings, lanes, t, g + rest),
{
    let all = g + rest;
    let at = span.start.add(c, t);
    assert forall|i: int| 0 <= i < all.len() implies at.le((#[trigger] all[i]).onset) && all[i].onset.le(
        span.start.add(c, span.len),
    ) && ranged(all[i]) && made_within(c, span, settings, lanes, all[i]) by {
        if i < g.len() {
            assert(all[i] == g[i]);
        } else {
            assert(all[i] == rest[i - g.len()]);
        }
    }
    assert forall|i: int, j: int| 0 <= i <= j < all.len() implies (
    #[trigger] all[i]).onset.le((#[trigger] all[j]).onset) by {
        if i >= g.len() {
            assert(all[i] == rest[i - g.len()]);
            assert(all[j] == rest[j - g.len()]);
        } else {
            assert(all[i] == g[i]);
            assert(at.le(all[j].onset));
        }
    }
}

proof fn lemma_free_forward<K: Fn(Op, Width, u64, u64) -> u64>(c: &Calc<K>, span: Span, settings: GrainSettings, lanes: Seq<AutomationLane>, t: F64, k: u64, x: u64, id: u64)
    requires
        rounds(c),
        rounds_doubles(c),
        tame(c, span, settings, lanes),
        t.finite(),
        0 <= t.value(),
    ensures
        forward(c, span, settings, lanes, t, free(c, span, settings, lanes, t, k, x, id)),
    decreases u64::MAX - k,
{
    if k < u64::MAX && t.lt(span.len) {
        let s = settings_in_force(c, settings, lanes, span.secs_per_beat, t);
        assert(numeric(s));
        let y = stirred(x);
        let g = grain(c, span, s, t, y, id);
        lemma_grain_forward(c, span, settings, lanes, t, y, id);
        lemma_next_time(c, t, s.density, x);
        let t2 = t.add(c, grain_interval(c, s.density, drawn_unit(x)));
        let id2 = id.wrapping_add(voices_of(s) as u64);
        let rest = free(c, span, settings, lanes, t2, (k + 1) as u64, after_grain(s, y), id2);
        lemma_free_forward(c, span, settings, lanes, t2, (k + 1) as u64, after_grain(s, y), id2);
        lemma_onset(c, span, t, t2);
        lemma_forward_joined(c, span, settings, lanes, t, t2, g, rest);
    }
}

/// A free-running cloud goes forward: it is empty exactly without length, source or
/// density; else its first onset is the clip's start, onsets never decrease, each is that
/// of a time from the clip's start to before its end, ids count up from zero, and every
/// grain's read position, length and pan are in their ranges.
pub proof fn law_free_clouds_go_forward<K: Fn(Op, Width, u64, u64) -> u64>(c: &Calc<K>, span: Span, settings: GrainSettings, lanes: Seq<AutomationLane>)
    requires
        rounds(c),
        rounds_doubles(c),
        tame(c, span, settings, lanes),
        settings.density.finite(),
        settings.sync_div.le(single(0)),
    ensures
        ({
            let events = cloud(c, span, settings, lanes);
            &&& events.len() == 0 <==> span.len.le(double(0)) || span.source_len.le(double(0))
                || settings.density.le(single(0))
            &&& events.len() > 0 ==> span.start.le(events[0].onset) && events[0].onset.le(
                span.start,
            )
            &&& forward(c, span, settings, lanes, double(0), events)
            &&& forall|i: int|
                0 <= i < events.len() && i <= u64::MAX - 8 ==> (#[trigger] events[i]).id == i
        }),
{
    lemma_units();
    let zero = double(0);
    let events = cloud(c, span, settings, lanes);
    if !(span.len.le(zero) || span.source_len.le(zero) || settings.density.le(single(0))) {
        let x = seeded(settings.seed ^ 0xA5A5_5A5A);
        assert(zero.lt(span.len));
        assert(events == free(c, span, settings, lanes, zero, 0, x, 0));
        lemma_free_forward(c, span, settings, lanes, zero, 0, x, 0);
        let s = settings_in_force(c, settings, lanes, span.secs_per_beat, zero);
        let y = stirred(x);
        let g = grain(c, span, s, zero, y, 0);
        assert(g.len() == voices_of(s) && voices_of(s) >= 1);
        assert(g[0] == voice(c, span, s, zero, y, 0, 0u64.wrapping_add(0)));
        assert(events[0] == g[0]);
        lemma_onset(c, span, zero, zero);
        assert forall|i: int| 0 <= i < events.len() && i <= u64::MAX - 8 implies (
        #[trigger] events[i]).id == i by {
            law_free_ids_count_up(c, span, settings, lanes, zero, 0, x, 0, i);
        }
    }
}

} // verus!
