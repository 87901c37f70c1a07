//! What a grain's draws make of it: where it reads, how long, how loud, where and how high it
//! sounds, with arithmetic that rounds to nearest.
use crate::auto::AutomationLane;
use crate::calc::{Calc, Op, Width};
use crate::dsp::{drawn_centred, drawn_unit, law_centred_draws_stay_in_range, law_unit_draws_stay_in_range, stirred, stirred_by};
use crate::grain::{after_grain, cloud, free, grain, grain_interval, settings_in_force, slot_chance, slot_length, synced, voice, voices_of, GrainEvent, GrainSettings, Span};
use crate::music::semitones_to_ratio;
use crate::num::{double, single, F32, F64};
use crate::reals::{
    amount, amount_of_double, kept_within, lemma_compared, lemma_constant, lemma_constant_double, lemma_constants, lemma_counted, lemma_exactly,
    lemma_greater_double, lemma_kept, lemma_order, lemma_over_sign, lemma_over_within, lemma_plus_within, lemma_plus_within_double, lemma_quotient, lemma_root, lemma_times_within, lemma_times_within_double, lemma_widened, lemma_wrapped,
    near_double, size,
};
use crate::rounding::{one, rounds};
use crate::rounding_double::rounds_doubles;
use vstd::arithmetic::power2::{lemma2_to64, lemma_pow2_adds, pow2};
use vstd::prelude::*;

verus! {

// --------------------------------------------------------------- every grain

/// Whether every grain of a sequence has that property.
pub open spec fn every(events: Seq<GrainEvent>, good: spec_fn(GrainEvent) -> bool) -> bool {
    forall|i: int| 0 <= i < events.len() ==> good(#[trigger] events[i])
}

/// Whether every voice that a clip's settings can schedule has that property.
pub open spec fn always<K: Fn(Op, Width, u64, u64) -> u64>(c: &Calc<K>, span: Span, settings: GrainSettings, lanes: Seq<AutomationLane>, good: spec_fn(GrainEvent) -> bool) -> bool {
    forall|t: F64, x: u64, v: int, id: u64|
        0 <= v < 4 ==> good(
            #[trigger] voice(c, span, settings_in_force(c, settings, lanes, span.secs_per_beat, t), t, x, v, id),
        )
}

proof fn lemma_every_joined(a: Seq<GrainEvent>, b: Seq<GrainEvent>, good: spec_fn(GrainEvent) -> bool)
    requires
        every(a, good),
        every(b, good),
    ensures
        every(a + b, good),
{
    assert forall|i: int| 0 <= i < (a + b).len() implies good(#[trigger] (a + b)[i]) by {
        if i < a.len() {
            assert((a + b)[i] == a[i]);
        } else {
            assert((a + b)[i] == b[i - a.len()]);
        }
    }
}

proof fn lemma_every_voice<K: Fn(Op, Width, u64, u64) -> u64>(c: &Calc<K>, span: Span, settings: GrainSettings, lanes: Seq<AutomationLane>, t: F64, x: u64, id: u64, good: spec_fn(GrainEvent) -> bool)
    requires
        always(c, span, settings, lanes, good),
    ensures
        every(grain(c, span, settings_in_force(c, settings, lanes, span.secs_per_beat, t), t, x, id), good),
{
    let s = settings_in_force(c, settings, lanes, span.secs_per_beat, t);
    let g = grain(c, span, s, t, x, id);
    assert forall|i: int| 0 <= i < g.len() implies good(#[trigger] g[i]) by {
        assert(g[i] == voice(c, span, s, t, x, i, id.wrapping_add(i as u64)));
    }
}

proof fn lemma_every_free<K: Fn(Op, Width, u64, u64) -> u64>(c: &Calc<K>, span: Span, settings: GrainSettings, lanes: Seq<AutomationLane>, t: F64, k: u64, x: u64, id: u64, good: spec_fn(GrainEvent) -> bool)
    requires
        always(c, span, settings, lanes, good),
    ensures
        every(free(c, span, settings, lanes, t, k, x, id), good),
    decreases u64::MAX - k,
{
    if k == u64::MAX || !t.lt(span.len) {
    } else {
        let s = settings_in_force(c, settings, lanes, span.secs_per_beat, t);
        let y = stirred(x);
        let next = t.add(c, grain_interval(c, s.density, drawn_unit(x)));
        let after = id.wrapping_add(voices_of(s) as u64);
        lemma_every_voice(c, span, settings, lanes, t, y, id, good);
        lemma_every_free(c, span, settings, lanes, next, (k + 1) as u64, after_grain(s, y), after, good);
        lemma_every_joined(
            grain(c, span, s, t, y, id),
            free(c, span, settings, lanes, next, (k + 1) as u64, after_grain(s, y), after),
            good,
        );
    }
}

proof fn lemma_every_synced<K: Fn(Op, Width, u64, u64) -> u64>(c: &Calc<K>, span: Span, settings: GrainSettings, lanes: Seq<AutomationLane>, k: u64, x: u64, id: u64, good: spec_fn(GrainEvent) -> bool)
    requires
        always(c, span, settings, lanes, good),
    ensures
        every(synced(c, span, settings, lanes, k, x, id), good),
    decreases u64::MAX - k,
{
    let slot = slot_length(c, settings.sync_div, span.secs_per_beat);
    let t = F64::of_count(c, k).mul(c, slot);
    if k == u64::MAX || span.len.le(t) {
    } else {
        let s = settings_in_force(c, settings, lanes, span.secs_per_beat, t);
        let y = stirred(x);
        let after = id.wrapping_add(voices_of(s) as u64);
        if drawn_unit(x).lt(slot_chance(c, s.density, slot)) {
            lemma_every_voice(c, span, settings, lanes, t, y, id, good);
            lemma_every_synced(c, span, settings, lanes, (k + 1) as u64, after_grain(s, y), after, good);
            lemma_every_joined(
                grain(c, span, s, t, y, id),
                synced(c, span, settings, lanes, (k + 1) as u64, after_grain(s, y), after),
                good,
            );
        } else {
            lemma_every_synced(c, span, settings, lanes, (k + 1) as u64, y, id, good);
        }
    }
}

/// What holds of every voice that the settings can schedule holds of the whole cloud.
pub proof fn lemma_every_grain<K: Fn(Op, Width, u64, u64) -> u64>(c: &Calc<K>, span: Span, settings: GrainSettings, lanes: Seq<AutomationLane>, good: spec_fn(GrainEvent) -> bool)
    requires
        always(c, span, settings, lanes, good),
    ensures
        every(cloud(c, span, settings, lanes), good),
{
    let x = crate::dsp::seeded(settings.seed ^ 0xA5A5_5A5A);
    lemma_every_free(c, span, settings, lanes, double(0), 0, x, 0, good);
    lemma_every_synced(c, span, settings, lanes, 0, x, 0, good);
}

/// The probability of reversed grains decides where it leaves nothing to chance: while it is
/// zero no grain plays backwards, and while it is one every grain does.
pub proof fn law_reverse_probability_decides<K: Fn(Op, Width, u64, u64) -> u64>(c: &Calc<K>, span: Span, settings: GrainSettings, lanes: Seq<AutomationLane>)
    ensures
        (forall|t: F64|
            (#[trigger] settings_in_force(c, settings, lanes, span.secs_per_beat, t)).reverse_prob.le(single(0))) ==> every(
            cloud(c, span, settings, lanes),
            |e: GrainEvent| !e.reverse,
        ),
        (forall|t: F64|
            single(0x3f80_0000).le(
                (#[trigger] settings_in_force(c, settings, lanes, span.secs_per_beat, t)).reverse_prob,
            )) ==> every(cloud(c, span, settings, lanes), |e: GrainEvent| e.reverse),
{
    assert forall|x: u64| single(0).le(#[trigger] drawn_unit(x)) && drawn_unit(x).lt(single(0x3f80_0000)) by {
        law_unit_draws_stay_in_range(x);
    }
    let forward = |e: GrainEvent| !e.reverse;
    let backward = |e: GrainEvent| e.reverse;
    if forall|t: F64| (#[trigger] settings_in_force(c, settings, lanes, span.secs_per_beat, t)).reverse_prob.le(single(0)) {
        assert(always(c, span, settings, lanes, forward));
        lemma_every_grain(c, span, settings, lanes, forward);
    }
    if forall|t: F64|
        single(0x3f80_0000).le((#[trigger] settings_in_force(c, settings, lanes, span.secs_per_beat, t)).reverse_prob) {
        assert(always(c, span, settings, lanes, backward));
        lemma_every_grain(c, span, settings, lanes, backward);
    }
}

/// A grain has the envelope and the skew that are in force when it starts.
pub proof fn law_grains_keep_their_shape<K: Fn(Op, Width, u64, u64) -> u64>(c: &Calc<K>, span: Span, settings: GrainSettings, lanes: Seq<AutomationLane>, envelope: F32, skew: F32)
    requires
        forall|t: F64|
            (#[trigger] settings_in_force(c, settings, lanes, span.secs_per_beat, t)).envelope == envelope
                && settings_in_force(c, settings, lanes, span.secs_per_beat, t).env_skew == skew,
    ensures
        every(cloud(c, span, settings, lanes), |e: GrainEvent| e.envelope == envelope && e.env_skew == skew),
{
    let good = |e: GrainEvent| e.envelope == envelope && e.env_skew == skew;
    assert(always(c, span, settings, lanes, good));
    lemma_every_grain(c, span, settings, lanes, good);
}

// ----------------------------------------------------------------- the draws

/// Draws are numbers from -1 to 1.
pub(crate) proof fn lemma_draw(x: u64)
    ensures
        drawn_centred(x).finite(),
        -1real <= amount(drawn_centred(x)) <= 1real,
{
    law_centred_draws_stay_in_range(x);
    lemma_constants();
    let d = drawn_centred(x);
    assert(d.finite());
    lemma_compared(d, single(0x3f80_0000));
    lemma_compared(single(0xbf80_0000), d);
}

/// A product with a draw is no larger than what was drawn for.
pub(crate) proof fn lemma_part(c: real, d: real, m: real)
    requires
        -m <= c <= m,
        -1real <= d <= 1real,
    ensures
        -m <= c * d <= m,
{
    assert(-m <= c * d <= m) by (nonlinear_arith)
        requires
            -m <= c <= m,
            -1real <= d <= 1real,
    ;
}

/// The least and the greatest length of a grain.
proof fn lemma_length_bounds()
    ensures
        single(0x3ba3_d70a).finite(),
        single(0x40a0_0000).finite(),
        size(amount(single(0x3ba3_d70a)) - 1real / 200real) <= 1real / 0x10_0000real,
        amount(single(0x40a0_0000)) == 5real,
{
    lemma2_to64();
    let (lo, hi) = (single(0x3ba3_d70a), single(0x40a0_0000));
    lemma_constant(0x3ba3_d70a, 0xa3_d70a, 119);
    lemma_constant(0x40a0_0000, 0xa0_0000, 129);
    assert(pow2(31) as real == 0x8000_0000real);
    assert(pow2(21) as real == 0x20_0000real);
    assert(amount(lo) * 0x8000_0000real == 0xa3_d70areal);
    assert(amount(hi) * 0x20_0000real == 0xa0_0000real);
}

/// A length before it is kept within bounds.
proof fn lemma_varied<K: Fn(Op, Width, u64, u64) -> u64>(c: &Calc<K>, duration: F32, jitter: F32, d: F32)
    requires
        rounds(c),
        duration.finite(),
        jitter.finite(),
        d.finite(),
        -8real <= amount(duration) <= 8real,
        -1real <= amount(jitter) <= 1real,
        -1real <= amount(d) <= 1real,
    ensures
        ({
            let r = duration.mul(c, single(0x3f80_0000).add(c, jitter.mul(c, d)));
            &&& r.finite()
            &&& size(amount(r) - amount(duration) * (1real + amount(jitter) * amount(d))) <= 52real / 0x40_0000real
            &&& amount(jitter) == 0real ==> amount(r) == amount(duration)
        }),
{
    lemma_constants();
    let (dd, jj, len) = (amount(d), amount(jitter), amount(duration));
    lemma_part(jj, dd, 1real);
    lemma_times_within(c, jitter, d, 1real);
    let p = jitter.mul(c, d);
    let unity = single(0x3f80_0000);
    lemma_plus_within(c, unity, p, 17real / 8real);
    let f = unity.add(c, p);
    let ff = amount(f);
    assert(-18real <= len * ff <= 18real) by (nonlinear_arith)
        requires
            -8real <= len <= 8real,
            -9real / 4real <= ff <= 9real / 4real,
    ;
    lemma_times_within(c, duration, f, 18real);
    let w = 1real + jj * dd;
    let e = ff - w;
    assert(len * ff - len * w == len * e) by (nonlinear_arith)
        requires
            e == ff - w,
    ;
    assert(-8real / 0x10_0000real <= len * e <= 8real / 0x10_0000real) by (nonlinear_arith)
        requires
            -8real <= len <= 8real,
            -1real / 0x10_0000real <= e <= 1real / 0x10_0000real,
    ;
    if jj == 0real {
        assert(jj * dd == 0real) by (nonlinear_arith)
            requires
                jj == 0real,
        ;
        lemma_exactly(c, jitter, d, single(0));
        lemma_exactly(c, unity, p, unity);
        assert(len * ff == len) by (nonlinear_arith)
            requires
                ff == 1real,
        ;
        lemma_exactly(c, duration, f, duration);
    }
}

/// A grain lasts as long as the settings say, longer or shorter by the part that was drawn,
/// and from five milliseconds to five seconds.
pub proof fn law_lengths_vary_by_the_draw<K: Fn(Op, Width, u64, u64) -> u64>(c: &Calc<K>, span: Span, s: GrainSettings, t: F64, x: u64, v: int, id: u64)
    requires
        rounds(c),
        s.duration.finite(),
        s.duration_jitter.finite(),
        -8real <= amount(s.duration) <= 8real,
        -1real <= amount(s.duration_jitter) <= 1real,
    ensures
        ({
            let e = voice(c, span, s, t, x, v, id);
            let want = amount(s.duration) * (1real + amount(s.duration_jitter) * amount(drawn_centred(x)));
            &&& e.duration.finite()
            &&& size(amount(e.duration) - kept_within(want, 1real / 200real, 5real)) <= 1real / 0x1_0000real
            &&& amount(s.duration_jitter) == 0real ==> amount(e.duration) == kept_within(
                amount(s.duration),
                amount(single(0x3ba3_d70a)),
                5real,
            )
        }),
{
    lemma_draw(x);
    let d = drawn_centred(x);
    lemma_varied(c, s.duration, s.duration_jitter, d);
    lemma_length_bounds();
    lemma_constants();
    lemma_kept(
        s.duration.mul(c, single(0x3f80_0000).add(c, s.duration_jitter.mul(c, d))),
        single(0x3ba3_d70a),
        single(0x40a0_0000),
    );
}

/// A grain sounds from the centre that the settings say, to the side by what was drawn of the
/// spread, and no further than the edges.
pub proof fn law_pans_spread_by_the_draw<K: Fn(Op, Width, u64, u64) -> u64>(c: &Calc<K>, span: Span, s: GrainSettings, t: F64, x: u64, v: int, id: u64)
    requires
        rounds(c),
        s.pan.finite(),
        s.pan_spread.finite(),
        -16real <= amount(s.pan) <= 16real,
    ensures
        ({
            let e = voice(c, span, s, t, x, v, id);
            let spread = kept_within(amount(s.pan_spread), 0real, 1real);
            let want = amount(s.pan) + spread * amount(drawn_centred(stirred_by(x, (4 + 2 * v) as nat)));
            &&& e.pan.finite()
            &&& size(amount(e.pan) - kept_within(want, -1real, 1real)) <= 1real / 0x1_0000real
            &&& amount(s.pan_spread) <= 0real ==> amount(e.pan) == kept_within(amount(s.pan), -1real, 1real)
        }),
{
    lemma_constants();
    let y = stirred_by(x, (4 + 2 * v) as nat);
    lemma_draw(y);
    let d = drawn_centred(y);
    let (zero, unity, minus) = (single(0), single(0x3f80_0000), single(0xbf80_0000));
    lemma_kept(s.pan_spread, zero, unity);
    let w = s.pan_spread.clamped(zero, unity);
    lemma_part(amount(w), amount(d), 1real);
    lemma_times_within(c, w, d, 1real);
    let p = w.mul(c, d);
    lemma_plus_within(c, s.pan, p, 18real);
    let r = s.pan.add(c, p);
    lemma_kept(r, minus, unity);
    if amount(s.pan_spread) <= 0real {
        let (a, b) = (amount(w), amount(d));
        assert(a * b == 0real) by (nonlinear_arith)
            requires
                a == 0real,
        ;
        lemma_exactly(c, w, d, zero);
        lemma_exactly(c, s.pan, p, s.pan);
    }
}

/// Numbers of an ordinary size for where a grain reads: seconds up to 2^20, a scan up to 64
/// times as fast, a source of 2^-16 seconds or more.
pub open spec fn readable(s: GrainSettings, source_len: F64, t: F64) -> bool {
    &&& s.position.finite() && -1real <= amount(s.position) <= 1real
    &&& s.scan_speed.finite() && -64real <= amount(s.scan_speed) <= 64real
    &&& s.spray.finite() && -1024real <= amount(s.spray) <= 1024real
    &&& t.finite() && -0x10_0000real <= amount_of_double(t) <= 0x10_0000real
    &&& source_len.finite() && 1real / 0x1_0000real <= amount_of_double(source_len) <= 0x10_0000real
}

/// A source is never counted as shorter than a millionth of a second.
pub(crate) proof fn lemma_length(source_len: F64)
    requires
        source_len.finite(),
        1real / 0x1_0000real <= amount_of_double(source_len),
    ensures
        source_len.max(double(0x3eb0_c6f7_a0b5_ed8d)).finite(),
        amount_of_double(source_len.max(double(0x3eb0_c6f7_a0b5_ed8d))) == amount_of_double(source_len),
{
    let least = double(0x3eb0_c6f7_a0b5_ed8d);
    lemma_constant_double(0x3eb0_c6f7_a0b5_ed8d, 0x10_c6f7_a0b5_ed8d, 1003);
    lemma2_to64();
    lemma_pow2_adds(64, 8);
    assert(pow2(72) as real == 0x100_0000_0000_0000_0000real);
    assert(amount_of_double(least) * 0x100_0000_0000_0000_0000real == 0x10_c6f7_a0b5_ed8dreal);
    lemma_greater_double(source_len, least);
}

/// A grain reads its source from the position that the settings say, further on by what the
/// scan has covered by then and by what was drawn of the spray, going round at the end.
pub proof fn law_grains_read_where_the_scan_is<K: Fn(Op, Width, u64, u64) -> u64>(c: &Calc<K>, span: Span, s: GrainSettings, t: F64, x: u64, v: int, id: u64) -> (k: int)
    requires
        rounds_doubles(c),
        readable(s, span.source_len, t),
    ensures
        ({
            let e = voice(c, span, s, t, x, v, id);
            let len = amount_of_double(span.source_len);
            let want = amount(s.position) * len + amount(s.scan_speed) * amount_of_double(t) + amount(s.spray) * amount(
                drawn_centred(stirred_by(x, 1)),
            );
            &&& e.source_pos.finite()
            &&& 0real <= amount_of_double(e.source_pos) <= len
            &&& size(amount_of_double(e.source_pos) + (k as real) * len - want) <= 1real / 0x10_0000real
        }),
{
    let y = stirred_by(x, 1);
    lemma_draw(y);
    let d = drawn_centred(y);
    lemma_widened(c, s.position);
    lemma_widened(c, s.scan_speed);
    lemma_widened(c, s.spray);
    lemma_widened(c, d);
    let (p, q, r, w) = (s.position.to_f64(c), s.scan_speed.to_f64(c), s.spray.to_f64(c), d.to_f64(c));
    let (pp, qq, rr, dd) = (amount(s.position), amount(s.scan_speed), amount(s.spray), amount(d));
    let (len, tt) = (amount_of_double(span.source_len), amount_of_double(t));
    assert(-0x10_0000real <= pp * len <= 0x10_0000real) by (nonlinear_arith)
        requires
            -1real <= pp <= 1real,
            0real <= len <= 0x10_0000real,
    ;
    assert(-0x400_0000real <= qq * tt <= 0x400_0000real) by (nonlinear_arith)
        requires
            -64real <= qq <= 64real,
            -0x10_0000real <= tt <= 0x10_0000real,
    ;
    lemma_part(rr, dd, 1024real);
    lemma_times_within_double(c, p, span.source_len, 0x10_0000real);
    lemma_times_within_double(c, q, t, 0x400_0000real);
    lemma_times_within_double(c, r, w, 1024real);
    let (a1, a2, a3) = (p.mul(c, span.source_len), q.mul(c, t), r.mul(c, w));
    lemma_plus_within_double(c, a1, a2, 0x800_0000real);
    let b1 = a1.add(c, a2);
    lemma_plus_within_double(c, b1, a3, 0x1000_0000real);
    let b2 = b1.add(c, a3);
    lemma_length(span.source_len);
    lemma_wrapped(c, b2, span.source_len.max(double(0x3eb0_c6f7_a0b5_ed8d)))
}

/// Grains start as far into the timeline as their clip does and they do into the clip.
pub proof fn law_grains_start_with_their_clip<K: Fn(Op, Width, u64, u64) -> u64>(c: &Calc<K>, span: Span, s: GrainSettings, t: F64, x: u64, v: int, id: u64)
    requires
        rounds_doubles(c),
        span.start.finite(),
        t.finite(),
        size(amount_of_double(span.start) + amount_of_double(t)) <= 0x10_0000_0000real,
    ensures
        near_double(
            amount_of_double(voice(c, span, s, t, x, v, id).onset),
            amount_of_double(span.start) + amount_of_double(t),
        ),
{
    crate::reals::lemma_plus_double(c, span.start, t);
}

/// A voice plays as high as the settings say, higher by its number of intervals, and off by
/// what was drawn of the jitter and, but for the first, of the detune.
pub proof fn law_voices_are_stacked<K: Fn(Op, Width, u64, u64) -> u64>(c: &Calc<K>, span: Span, s: GrainSettings, t: F64, x: u64, v: int, id: u64) -> (st: F32)
    requires
        rounds(c),
        0 <= v < 4,
        s.pitch.finite() && -64real <= amount(s.pitch) <= 64real,
        s.voice_interval.finite() && -64real <= amount(s.voice_interval) <= 64real,
        s.pitch_jitter.finite() && -64real <= amount(s.pitch_jitter) <= 64real,
        s.voice_detune.finite() && -64real <= amount(s.voice_detune) <= 64real,
    ensures
        ({
            let e = voice(c, span, s, t, x, v, id);
            let off = if v == 0 {
                0real
            } else {
                amount(s.voice_detune) * amount(drawn_centred(stirred_by(x, (3 + 2 * v) as nat)))
            };
            let want = amount(s.pitch) + (v as real) * amount(s.voice_interval) + amount(s.pitch_jitter) * amount(
                drawn_centred(stirred_by(x, 2)),
            ) + off;
            &&& st.finite()
            &&& size(amount(st) - want) <= 1real / 0x800real
            &&& match span.key {
                Some(key) => e.pitch_ratio == key.tuned(c, span.base_hz, semitones_to_ratio(c, st)),
                None => e.pitch_ratio == semitones_to_ratio(c, st),
            }
        }),
{
    lemma_constants();
    let (y, z) = (stirred_by(x, 2), stirred_by(x, (3 + 2 * v) as nat));
    lemma_draw(y);
    lemma_draw(z);
    let (d, o) = (drawn_centred(y), drawn_centred(z));
    lemma_part(amount(s.pitch_jitter), amount(d), 64real);
    lemma_part(amount(s.voice_detune), amount(o), 64real);
    lemma_times_within(c, s.pitch_jitter, d, 64real);
    lemma_times_within(c, s.voice_detune, o, 64real);
    let j = s.pitch_jitter.mul(c, d);
    let off = if v == 0 {
        single(0)
    } else {
        s.voice_detune.mul(c, o)
    };
    let n = F32::of_count(c, v as u64);
    lemma_single_counts(c, v as u64);
    let (nn, ii) = (amount(n), amount(s.voice_interval));
    assert(-256real <= nn * ii <= 256real) by (nonlinear_arith)
        requires
            0real <= nn <= 4real,
            -64real <= ii <= 64real,
    ;
    lemma_times_within(c, n, s.voice_interval, 256real);
    let a = n.mul(c, s.voice_interval);
    lemma_plus_within(c, s.pitch, a, 330real);
    let b = s.pitch.add(c, a);
    lemma_plus_within(c, b, j, 400real);
    let g = b.add(c, j);
    lemma_plus_within(c, g, off, 500real);
    g.add(c, off)
}

/// Small counts are themselves.
pub(crate) proof fn lemma_single_counts<K: Fn(Op, Width, u64, u64) -> u64>(c: &Calc<K>, n: u64)
    requires
        rounds(c),
        n < 0x100_0000,
    ensures
        F32::of_count(c, n).finite(),
        amount(F32::of_count(c, n)) == n as real,
{
    crate::rounding::lemma_of_count(c, n);
    crate::rounding::lemma_grid(n as int, 150);
    crate::rounding::lemma_exact(F32::of_count(c, n), n * one(), 1, crate::rounding::grid(n as int, 150));
    let x = F32::of_count(c, n);
    lemma_counted(n as int, one());
    vstd::arithmetic::power2::lemma_pow2_pos(149);
    let (a, u, k) = (amount(x), one() as real, n as real);
    lemma_quotient(x.value() as real, u);
    assert(a == k) by (nonlinear_arith)
        requires
            a * u == k * u,
            u > 0real,
    ;
}

/// The root of a number of voices.
proof fn lemma_voice_root<K: Fn(Op, Width, u64, u64) -> u64>(c: &Calc<K>, n: u64)
    requires
        rounds(c),
        1 <= n <= 4,
    ensures
        ({
            let r = F32::of_count(c, n).sqrt(c);
            &&& r.finite()
            &&& 1real <= amount(r) <= 2real
            &&& size(amount(r) * amount(r) - n as real) <= 1real / 0x10_0000real
            &&& n == 1 ==> amount(r) == 1real
        }),
{
    lemma_single_counts(c, n);
    lemma_constants();
    lemma2_to64();
    assert(pow2(23) as real == 0x80_0000real);
    let a = F32::of_count(c, n);
    lemma_root(c, a, single(0x3f80_0000));
    lemma_root(c, a, single(0x4000_0000));
    lemma_constant(0x3fb5_04f3, 0xb5_04f3, 127);
    lemma_constant(0x3fb5_04f4, 0xb5_04f4, 127);
    lemma_constant(0x3fdd_b3d7, 0xdd_b3d7, 127);
    lemma_constant(0x3fdd_b3d8, 0xdd_b3d8, 127);
    let (p, q) = (single(0x3fb5_04f3), single(0x3fb5_04f4));
    let (v, w) = (single(0x3fdd_b3d7), single(0x3fdd_b3d8));
    assert(amount(p) * 0x80_0000real == 0xb5_04f3real);
    assert(amount(q) * 0x80_0000real == 0xb5_04f4real);
    assert(amount(v) * 0x80_0000real == 0xdd_b3d7real);
    assert(amount(w) * 0x80_0000real == 0xdd_b3d8real);
    assert(amount(p) == 0xb5_04f3real / 0x80_0000real);
    assert(amount(q) == 0xb5_04f4real / 0x80_0000real);
    assert(amount(v) == 0xdd_b3d7real / 0x80_0000real);
    assert(amount(w) == 0xdd_b3d8real / 0x80_0000real);
    if n == 2 {
        lemma_root(c, a, p);
        lemma_root(c, a, q);
    } else if n == 3 {
        lemma_root(c, a, v);
        lemma_root(c, a, w);
    }
    let r = amount(a.sqrt(c));
    if n == 2 {
        assert(0xb5_04f3real / 0x80_0000real <= r <= 0xb5_04f4real / 0x80_0000real);
        assert(size(r * r - 2real) <= 1real / 0x10_0000real) by (nonlinear_arith)
            requires
                0xb5_04f3real / 0x80_0000real <= r <= 0xb5_04f4real / 0x80_0000real,
        ;
    } else if n == 3 {
        assert(0xdd_b3d7real / 0x80_0000real <= r <= 0xdd_b3d8real / 0x80_0000real);
        assert(size(r * r - 3real) <= 1real / 0x10_0000real) by (nonlinear_arith)
            requires
                0xdd_b3d7real / 0x80_0000real <= r <= 0xdd_b3d8real / 0x80_0000real,
        ;
    }
}

/// The voices of a grain together are as strong as one voice alone: the squares of their
/// gains add up to the square of the gain that the settings say.
pub proof fn law_voices_share_the_loudness<K: Fn(Op, Width, u64, u64) -> u64>(c: &Calc<K>, span: Span, s: GrainSettings, t: F64, x: u64, v: int, id: u64)
    requires
        rounds(c),
        s.gain.finite(),
        -16real <= amount(s.gain) <= 16real,
    ensures
        ({
            let g = voice(c, span, s, t, x, v, id).gain;
            let n = voices_of(s) as real;
            &&& g.finite()
            &&& size(n * amount(g) * amount(g) - amount(s.gain) * amount(s.gain)) <= 1real / 0x400real
            &&& size(amount(g)) <= 17real
            &&& amount(s.gain) > 0real ==> amount(g) >= 0real
            &&& voices_of(s) == 1 ==> amount(g) == amount(s.gain)
        }),
{
    let n = voices_of(s) as u64;
    lemma_voice_root(c, n);
    let root = F32::of_count(c, n).sqrt(c);
    let (r, w) = (amount(root), amount(s.gain));
    lemma_quotient(w, r);
    let q = w / r;
    assert(-16real <= q <= 16real && (w > 0real ==> q > 0real)) by (nonlinear_arith)
        requires
            q * r == w,
            r >= 1real,
            -16real <= w <= 16real,
    ;
    lemma_over_within(c, s.gain, root, 16real);
    let g = voice(c, span, s, t, x, v, id).gain;
    let gg = amount(g);
    let e = gg - q;
    let k = n as real;
    assert(gg * r - w == e * r) by (nonlinear_arith)
        requires
            e == gg - q,
            q * r == w,
    ;
    let p = gg * r;
    assert(-34real <= 0x40_0000real * (p - w) <= 34real) by (nonlinear_arith)
        requires
            p - w == e * r,
            -17real <= 0x40_0000real * e <= 17real,
            1real <= r <= 2real,
    ;
    assert(size(p * p - w * w) <= 1real / 0x800real) by (nonlinear_arith)
        requires
            -34real <= 0x40_0000real * (p - w) <= 34real,
            -16real <= w <= 16real,
    ;
    let f = r * r - k;
    assert(k * gg * gg == p * p - f * (gg * gg)) by (nonlinear_arith)
        requires
            p == gg * r,
            f == r * r - k,
    ;
    assert(size(f * (gg * gg)) <= 1real / 0x800real) by (nonlinear_arith)
        requires
            size(f) <= 1real / 0x10_0000real,
            -17real <= gg <= 17real,
    ;
    if n == 1 {
        assert(w == w * r) by (nonlinear_arith)
            requires
                r == 1real,
        ;
        lemma_exactly(c, s.gain, root, s.gain);
    }
    if w > 0real {
        lemma_constants();
        assert(gg >= 0real) by {
            lemma_quotient_sign(c, s.gain, root);
        }
    }
}

/// Quotients of numbers above zero are not below it.
pub(crate) proof fn lemma_quotient_sign<K: Fn(Op, Width, u64, u64) -> u64>(c: &Calc<K>, a: F32, b: F32)
    requires
        rounds(c),
        a.finite(),
        b.finite(),
        0real <= amount(a) <= 0x1000real,
        1real <= amount(b) <= 0x1000real,
    ensures
        a.div(c, b).finite(),
        amount(a.div(c, b)) >= 0real,
{
    let zero = F32 { bits: 0 };
    lemma_order(zero, a);
    lemma_order(zero, b);
    lemma_quotient(amount(a), amount(b));
    let (x, y, q) = (amount(a), amount(b), amount(a) / amount(b));
    assert(0real <= q <= 0x1000real) by (nonlinear_arith)
        requires
            q * y == x,
            0real <= x <= 0x1000real,
            y >= 1real,
    ;
    lemma_over_within(c, a, b, 0x1000real);
    lemma_over_sign(c, a, b);
    lemma_order(zero, a.div(c, b));
}

} // verus!
