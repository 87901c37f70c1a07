//! What the steps of a pattern sound like: when, how high, how loud and on which side a hit
//! is, with arithmetic that rounds to nearest.
use crate::auto::AutomationLane;
use crate::calc::{Calc, Op, Width};
use crate::dsp::{drawn_centred, law_unit_draws_stay_in_range, stirred_by};
use crate::grain::{settings_in_force, GrainSettings};
use crate::music::{detuning, effective, semitones_to_ratio};
use crate::num::{double, single, F32, F64};
use crate::reals::{
    about, about_double, amount, amount_of_double, converts, kept_within, lemma_about_kept, lemma_about_less_double, lemma_about_over, lemma_about_over_double,
    lemma_about_plus, lemma_about_plus_double, lemma_about_times, lemma_about_times_double, lemma_compared, lemma_compared_double, lemma_constant,
    lemma_constant_double, lemma_constants, lemma_counts, lemma_exactly, lemma_greater_double, lemma_kept, lemma_narrowed, lemma_quotient, lemma_same, lemma_times,
    lemma_widened, lemma_wrapped, size, speck,
};
use crate::rounding::rounds;
use crate::rounding_double::rounds_doubles;
use crate::seq::{
    hit, repetition, row_span, segment_from, segment_pos, segment_secs, slot_start, slot_state, step_at, PatternSpan, RowSpan, SeqRow, Step,
};
use crate::spread::{lemma_draw, lemma_length, lemma_part};
use crate::timeline::Source;
use vstd::arithmetic::power2::{lemma2_to64, lemma_pow2_adds, pow2};
use vstd::prelude::*;

verus! {

/// The settings in force in a slot.
pub open spec fn preset_at<K: Fn(Op, Width, u64, u64) -> u64>(c: &Calc<K>, span: RowSpan, grains: GrainSettings, lanes: Seq<AutomationLane>, slot: u64) -> GrainSettings {
    settings_in_force(c, grains, lanes, span.secs_per_beat, slot_start(c, span.step_secs, slot))
}

/// A row goes round its own steps.
pub proof fn law_rows_go_round(steps: Seq<Step>, slot: u64)
    requires
        steps.len() > 0,
        slot + steps.len() <= u64::MAX,
    ensures
        slot < steps.len() ==> step_at(steps, slot) == steps[slot as int],
        step_at(steps, (slot + steps.len()) as u64) == step_at(steps, slot),
{
    let (n, k) = (steps.len() as int, slot as int);
    assert((k + n) % n == k % n) by (nonlinear_arith)
        requires
            n > 0,
    ;
    if k < n {
        assert(k % n == k) by (nonlinear_arith)
            requires
                0 <= k < n,
        ;
    }
}

// ------------------------------------------------------------------- the pitch

/// Whether pitches are of an ordinary size: 64 semitones each at most.
pub open spec fn playable(g: GrainSettings, step: Step) -> bool {
    &&& g.pitch.finite() && size(amount(g.pitch)) <= 64real
    &&& step.pitch.finite() && size(amount(step.pitch)) <= 64real
    &&& g.pitch_jitter.finite() && size(amount(g.pitch_jitter)) <= 64real
}

/// A hit is as high as its row and its step together, and off by what was drawn of the jitter;
/// without a key its ratio is that of these semitones, times the detuning.
pub proof fn law_hits_are_pitched_by_their_step<K: Fn(Op, Width, u64, u64) -> u64>(c: &Calc<K>, span: RowSpan, grains: GrainSettings, lanes: Seq<AutomationLane>, step: Step, slot: u64, id: u64) -> (st: F32)
    requires
        rounds(c),
        playable(preset_at(c, span, grains, lanes, slot), step),
    ensures
        ({
            let g = preset_at(c, span, grains, lanes, slot);
            let e = hit(c, span, grains, lanes, step, slot, id);
            let draw = amount(drawn_centred(stirred_by(slot_state(span.seed, slot), 1)));
            &&& about(st, amount(g.pitch) + amount(step.pitch) + amount(g.pitch_jitter) * draw, 1real / 0x2000real)
            &&& e.pitch_ratio == effective(c, st, span.key, span.base_hz, g.quantize_amount, g.detune_cents)
            &&& span.key is None ==> e.pitch_ratio == semitones_to_ratio(c, st).mul(c, detuning(c, g.detune_cents))
            &&& amount(g.pitch) == 0real && amount(g.pitch_jitter) == 0real ==> amount(st) == amount(step.pitch)
            &&& amount(g.pitch) == 0real && amount(g.pitch_jitter) == 0real && amount(step.pitch) != 0real ==> st
                == step.pitch
        }),
{
    reveal(hit);
    let u = 1real / 0x40_0000real;
    let g = preset_at(c, span, grains, lanes, slot);
    let y = stirred_by(slot_state(span.seed, slot), 1);
    lemma_draw(y);
    let d = drawn_centred(y);
    lemma_about_times(c, g.pitch_jitter, amount(g.pitch_jitter), 0real, 64real, d, amount(d), 0real, 1real, 65real * u);
    lemma_about_plus(c, g.pitch, amount(g.pitch), 0real, step.pitch, amount(step.pitch), 0real, 128real, 129real * u);
    let (a, b) = (g.pitch.add(c, step.pitch), g.pitch_jitter.mul(c, d));
    lemma_about_plus(
        c,
        a,
        amount(g.pitch) + amount(step.pitch),
        129real * u,
        b,
        amount(g.pitch_jitter) * amount(d),
        65real * u,
        192real,
        400real * u,
    );
    if amount(g.pitch) == 0real && amount(g.pitch_jitter) == 0real {
        lemma_constants();
        let (x, w) = (amount(g.pitch_jitter), amount(d));
        assert(x * w == 0real) by (nonlinear_arith)
            requires
                x == 0real,
        ;
        lemma_exactly(c, g.pitch, step.pitch, step.pitch);
        lemma_exactly(c, g.pitch_jitter, d, single(0));
        lemma_exactly(c, a, b, step.pitch);
        if amount(step.pitch) != 0real {
            lemma_same(a.add(c, b), step.pitch);
        }
    }
    a.add(c, b)
}

/// Whether powers of two double where the exponent grows by one: for exponents from -24 to 24,
/// within a 2^12th part where the exponents are one apart within 2^-14.
#[verifier::opaque]
pub open spec fn powers_double<K: Fn(Op, Width, u64, u64) -> u64>(c: &Calc<K>) -> bool {
    &&& forall|y: F32|
        y.finite() && size(amount(y)) <= 24real ==> (#[trigger] single(0x4000_0000).pow(c, y)).finite()
            && 1real / 0x400_0000real <= amount(single(0x4000_0000).pow(c, y)) <= 0x400_0000real
    &&& forall|y: F32, z: F32|
        #![trigger single(0x4000_0000).pow(c, y), single(0x4000_0000).pow(c, z)]
        y.finite() && z.finite() && size(amount(y)) <= 24real && size(amount(z)) <= 24real && size(
            amount(z) - amount(y) - 1real,
        ) <= 1real / 0x4000real ==> size(
            amount(single(0x4000_0000).pow(c, z)) - 2real * amount(single(0x4000_0000).pow(c, y)),
        ) <= amount(single(0x4000_0000).pow(c, y)) / 0x1000real
}

/// Twelve semitones are an octave.
pub proof fn law_twelve_semitones_double<K: Fn(Op, Width, u64, u64) -> u64>(c: &Calc<K>, a: F32, b: F32)
    requires
        rounds(c),
        powers_double(c),
        a.finite() && size(amount(a)) <= 256real,
        b.finite() && size(amount(b)) <= 256real,
        size(amount(b) - amount(a) - 12real) <= 1real / 0x1000real,
    ensures
        semitones_to_ratio(c, a).finite() && 1real / 0x400_0000real <= amount(semitones_to_ratio(c, a)) <= 0x400_0000real,
        semitones_to_ratio(c, b).finite(),
        size(amount(semitones_to_ratio(c, b)) - 2real * amount(semitones_to_ratio(c, a))) <= amount(semitones_to_ratio(c, a))
            / 0x1000real,
{
    lemma2_to64();
    let dozen = single(0x4140_0000);
    lemma_constant(0x4140_0000, 0xc0_0000, 130);
    assert(pow2(20) as real == 0x10_0000real);
    assert(amount(dozen) * 0x10_0000real == 0xc0_0000real);
    let u = 1real / 0x40_0000real;
    lemma_about_over(c, a, amount(a), 0real, dozen, 12real, 22real, 45real * u);
    lemma_about_over(c, b, amount(b), 0real, dozen, 12real, 22real, 45real * u);
    reveal(powers_double);
}

/// Two steps whose pitches are an octave apart sound an octave apart, where no key bends them.
pub proof fn law_steps_an_octave_apart<K: Fn(Op, Width, u64, u64) -> u64>(c: &Calc<K>, span: RowSpan, grains: GrainSettings, lanes: Seq<AutomationLane>, low: Step, high: Step, slot: u64, id: u64, id2: u64)
    requires
        rounds(c),
        powers_double(c),
        span.key is None,
        playable(preset_at(c, span, grains, lanes, slot), low),
        playable(preset_at(c, span, grains, lanes, slot), high),
        amount(high.pitch) == amount(low.pitch) + 12real,
        ({
            let d = detuning(c, preset_at(c, span, grains, lanes, slot).detune_cents);
            d.finite() && 1real / 2real <= amount(d) <= 2real
        }),
    ensures
        ({
            let (a, b) = (
                hit(c, span, grains, lanes, low, slot, id).pitch_ratio,
                hit(c, span, grains, lanes, high, slot, id2).pitch_ratio,
            );
            &&& a.finite() && b.finite()
            &&& amount(a) > 0real
            &&& size(amount(b) - 2real * amount(a)) <= amount(a) / 0x400real
        }),
{
    let g = preset_at(c, span, grains, lanes, slot);
    let x = law_hits_are_pitched_by_their_step(c, span, grains, lanes, low, slot, id);
    let y = law_hits_are_pitched_by_their_step(c, span, grains, lanes, high, slot, id2);
    let draw = amount(drawn_centred(stirred_by(slot_state(span.seed, slot), 1)));
    lemma_draw(stirred_by(slot_state(span.seed, slot), 1));
    lemma_part(amount(g.pitch_jitter), draw, 64real);
    law_twelve_semitones_double(c, x, y);
    let d = detuning(c, g.detune_cents);
    let (p, q) = (semitones_to_ratio(c, x), semitones_to_ratio(c, y));
    lemma_detuned_twice(c, p, q, d);
}

proof fn lemma_detuned_twice<K: Fn(Op, Width, u64, u64) -> u64>(c: &Calc<K>, p: F32, q: F32, d: F32)
    requires
        rounds(c),
        p.finite() && q.finite() && d.finite(),
        1real / 0x400_0000real <= amount(p) <= 0x400_0000real,
        size(amount(q) - 2real * amount(p)) <= amount(p) / 0x1000real,
        1real / 2real <= amount(d) <= 2real,
    ensures
        p.mul(c, d).finite() && q.mul(c, d).finite(),
        amount(p.mul(c, d)) > 0real,
        size(amount(q.mul(c, d)) - 2real * amount(p.mul(c, d))) <= amount(p.mul(c, d)) / 0x400real,
{
    let (a, b, k) = (amount(p), amount(q), amount(d));
    let (x, y) = (a * k, b * k);
    assert(x > 0real && x <= 0x800_0000real && 1real / 0x800_0000real <= x && size(y - 2real * x) <= x / 0x1000real) by (nonlinear_arith)
        requires
            x == a * k,
            y == b * k,
            1real / 0x400_0000real <= a <= 0x400_0000real,
            size(b - 2real * a) <= a / 0x1000real,
            1real / 2real <= k <= 2real,
    ;
    lemma_times(c, p, d);
    lemma_times(c, q, d);
    assert(speck() <= 1real / 0x800_0000real / 0x1_0000real);
}

// ------------------------------------------------------- loudness, side, place

/// A hit is as loud as its row, times its step.
pub proof fn law_hits_are_as_loud_as_their_step<K: Fn(Op, Width, u64, u64) -> u64>(c: &Calc<K>, span: RowSpan, grains: GrainSettings, lanes: Seq<AutomationLane>, step: Step, slot: u64, id: u64)
    requires
        rounds(c),
        ({
            let g = preset_at(c, span, grains, lanes, slot);
            g.gain.finite() && size(amount(g.gain)) <= 16real
        }),
        step.gain.finite() && size(amount(step.gain)) <= 16real,
    ensures
        about(
            hit(c, span, grains, lanes, step, slot, id).gain,
            amount(preset_at(c, span, grains, lanes, slot).gain) * amount(step.gain),
            1real / 0x1000real,
        ),
{
    reveal(hit);
    let g = preset_at(c, span, grains, lanes, slot);
    lemma_about_times(c, g.gain, amount(g.gain), 0real, 16real, step.gain, amount(step.gain), 0real, 16real, 1real / 0x1000real);
}

/// A hit sounds from its row's centre, to the side by what was drawn of the spread, and no
/// further than the edges.
pub proof fn law_hits_spread_by_the_draw<K: Fn(Op, Width, u64, u64) -> u64>(c: &Calc<K>, span: RowSpan, grains: GrainSettings, lanes: Seq<AutomationLane>, step: Step, slot: u64, id: u64)
    requires
        rounds(c),
        ({
            let g = preset_at(c, span, grains, lanes, slot);
            &&& g.pan.finite() && size(amount(g.pan)) <= 16real
            &&& g.pan_spread.finite() && size(amount(g.pan_spread)) <= 16real
        }),
    ensures
        ({
            let g = preset_at(c, span, grains, lanes, slot);
            let draw = amount(drawn_centred(stirred_by(slot_state(span.seed, slot), 2)));
            about(
                hit(c, span, grains, lanes, step, slot, id).pan,
                kept_within(amount(g.pan) + amount(g.pan_spread) * draw, -1real, 1real),
                1real / 0x1_0000real,
            )
        }),
{
    reveal(hit);
    let u = 1real / 0x40_0000real;
    lemma_constants();
    let g = preset_at(c, span, grains, lanes, slot);
    let y = stirred_by(slot_state(span.seed, slot), 2);
    lemma_draw(y);
    let d = drawn_centred(y);
    lemma_about_times(c, g.pan_spread, amount(g.pan_spread), 0real, 16real, d, amount(d), 0real, 1real, 17real * u);
    let p = g.pan_spread.mul(c, d);
    lemma_about_plus(c, g.pan, amount(g.pan), 0real, p, amount(g.pan_spread) * amount(d), 17real * u, 32real, 60real * u);
    lemma_about_kept(
        g.pan.add(c, p),
        amount(g.pan) + amount(g.pan_spread) * amount(d),
        60real * u,
        single(0xbf80_0000),
        single(0x3f80_0000),
    );
}

/// A hit keeps the shape of its row, lasts as long as the row says, from a hundredth of a
/// second to five, and is reversed as its draw decides.
pub proof fn law_hits_keep_their_shape<K: Fn(Op, Width, u64, u64) -> u64>(c: &Calc<K>, span: RowSpan, grains: GrainSettings, lanes: Seq<AutomationLane>, step: Step, slot: u64, id: u64)
    requires
        preset_at(c, span, grains, lanes, slot).duration.finite(),
    ensures
        ({
            let g = preset_at(c, span, grains, lanes, slot);
            let e = hit(c, span, grains, lanes, step, slot, id);
            &&& e.envelope == g.envelope
            &&& e.env_skew == g.env_skew
            &&& e.id == id
            &&& about(e.duration, kept_within(amount(g.duration), 1real / 100real, 5real), 1real / 0x100_0000real)
            &&& g.reverse_prob.le(single(0)) ==> !e.reverse
            &&& single(0x3f80_0000).le(g.reverse_prob) ==> e.reverse
        }),
{
    reveal(hit);
    let g = preset_at(c, span, grains, lanes, slot);
    law_unit_draws_stay_in_range(stirred_by(slot_state(span.seed, slot), 3));
    lemma2_to64();
    let (lo, hi) = (single(0x3c23_d70a), single(0x40a0_0000));
    lemma_constant(0x3c23_d70a, 0xa3_d70a, 120);
    lemma_constant(0x40a0_0000, 0xa0_0000, 129);
    assert(pow2(30) as real == 0x4000_0000real);
    assert(pow2(21) as real == 0x20_0000real);
    assert(amount(lo) * 0x4000_0000real == 0xa3_d70areal);
    assert(amount(hi) * 0x20_0000real == 0xa0_0000real);
    lemma_kept(g.duration, lo, hi);
}

/// A hit reads its source from where its row says, off by what was drawn of the spray, going
/// round at the end.
pub proof fn law_hits_read_where_the_row_says<K: Fn(Op, Width, u64, u64) -> u64>(c: &Calc<K>, span: RowSpan, grains: GrainSettings, lanes: Seq<AutomationLane>, step: Step, slot: u64, id: u64) -> (k: int)
    requires
        rounds_doubles(c),
        ({
            let g = preset_at(c, span, grains, lanes, slot);
            &&& g.position.finite() && size(amount(g.position)) <= 1real
            &&& g.spray.finite() && size(amount(g.spray)) <= 1024real
        }),
        span.source_len.finite() && 1real / 0x1_0000real <= amount_of_double(span.source_len) <= 0x10_0000real,
    ensures
        ({
            let g = preset_at(c, span, grains, lanes, slot);
            let e = hit(c, span, grains, lanes, step, slot, id);
            let len = amount_of_double(span.source_len);
            let draw = amount(drawn_centred(slot_state(span.seed, slot)));
            let want = amount(g.position) * len + amount(g.spray) * draw;
            &&& e.source_pos.finite()
            &&& 0real <= amount_of_double(e.source_pos) <= len
            &&& size(amount_of_double(e.source_pos) + (k as real) * len - want) <= 1real / 0x10_0000real
        }),
{
    reveal(hit);
    let g = preset_at(c, span, grains, lanes, slot);
    let y = slot_state(span.seed, slot);
    lemma_draw(y);
    let d = drawn_centred(y);
    lemma_widened(c, g.position);
    lemma_widened(c, g.spray);
    lemma_widened(c, d);
    let (p, r, w) = (g.position.to_f64(c), g.spray.to_f64(c), d.to_f64(c));
    let len = amount_of_double(span.source_len);
    let (pp, rr, dd) = (amount(g.position), amount(g.spray), amount(d));
    let e = 1real / 0x1000_0000real;
    lemma_about_times_double(c, p, pp, 0real, 1real, span.source_len, len, 0real, 0x10_0000real, e);
    lemma_about_times_double(c, r, rr, 0real, 1024real, w, dd, 0real, 1real, e);
    let (a, b) = (p.mul(c, span.source_len), r.mul(c, w));
    lemma_about_plus_double(c, a, pp * len, e, b, rr * dd, e, 0x20_0000real, 4real * e);
    lemma_length(span.source_len);
    lemma_wrapped(c, a.add(c, b), span.source_len.max(double(0x3eb0_c6f7_a0b5_ed8d)))
}

/// A hit starts with its slot: as many steps into the clip as the slot counts.
pub proof fn law_hits_start_with_their_slot<K: Fn(Op, Width, u64, u64) -> u64>(c: &Calc<K>, span: RowSpan, grains: GrainSettings, lanes: Seq<AutomationLane>, step: Step, slot: u64, id: u64)
    requires
        rounds_doubles(c),
        span.start.finite() && size(amount_of_double(span.start)) <= 0x10_0000real,
        span.step_secs.finite() && 0real <= amount_of_double(span.step_secs) <= 64real,
        slot <= 0x10_0000,
    ensures
        about_double(
            hit(c, span, grains, lanes, step, slot, id).onset,
            amount_of_double(span.start) + (slot as real) * amount_of_double(span.step_secs),
            1real / 0x10_0000real,
        ),
{
    reveal(hit);
    lemma_counts(c, slot);
    let n = F64::of_count(c, slot);
    let (k, s) = (slot as real, amount_of_double(span.step_secs));
    let e = 1real / 0x80_0000real;
    lemma_about_times_double(c, n, k, 0real, 0x10_0000real, span.step_secs, s, 0real, 64real, e);
    lemma_about_plus_double(c, span.start, amount_of_double(span.start), 0real, n.mul(c, span.step_secs), k * s, e, 0x800_0000real, 2real * e);
}

/// A beat has as many steps as its pattern says; a clip's key counts before its rows' keys.
pub proof fn law_rows_share_the_beat<K: Fn(Op, Width, u64, u64) -> u64>(c: &Calc<K>, span: PatternSpan, steps_per_beat: u32, row: SeqRow, source: Source, i: int)
    requires
        rounds_doubles(c),
        span.secs_per_beat.finite() && 0real <= amount_of_double(span.secs_per_beat) <= 64real,
        1 <= steps_per_beat <= 0x1_0000,
    ensures
        ({
            let r = row_span(c, span, steps_per_beat, row, source, i);
            &&& r.step_secs.finite()
            &&& size(amount_of_double(r.step_secs) * (steps_per_beat as real) - amount_of_double(span.secs_per_beat)) <= 1real
                / 0x1000real
            &&& r.start == span.start && r.len == span.len && r.secs_per_beat == span.secs_per_beat
            &&& span.key is Some ==> r.key == span.key
            &&& span.key is None ==> r.key == row.key
        }),
{
    lemma_counts(c, steps_per_beat as u64);
    let n = F64::of_count(c, steps_per_beat as u64);
    let (b, k) = (amount_of_double(span.secs_per_beat), steps_per_beat as real);
    lemma_quotient(b, k);
    let q = b / k;
    let u = 1real / 0x8_0000_0000_0000real;
    lemma_about_over_double(c, span.secs_per_beat, b, 0real, n, 1real, 64real, 129real * u);
    let s = amount_of_double(span.secs_per_beat.div(c, n));
    assert(size(s * k - b) <= 1real / 0x1000real) by (nonlinear_arith)
        requires
            -(129real * u) <= s - q <= 129real * u,
            u == 1real / 0x8_0000_0000_0000real,
            q * k == b,
            1real <= k <= 0x1_0000real,
    ;
}

// ------------------------------------------------------------------- the loops

/// The segment that a loop row repeats: from its start to its stop, each a part of the source.
pub proof fn law_loop_segments<K: Fn(Op, Width, u64, u64) -> u64>(c: &Calc<K>, loop_start: F32, loop_end: F32, source_len: F64)
    requires
        rounds_doubles(c),
        loop_start.finite(),
        loop_end.finite(),
        source_len.finite() && 0real <= amount_of_double(source_len) <= 0x10_0000real,
    ensures
        ({
            let from = kept_within(amount(loop_start), 0real, 1real);
            let to = kept_within(amount(loop_end), 0real, 1real);
            let want = (to - from) * amount_of_double(source_len);
            &&& about_double(segment_from(c, loop_start), from, 0real)
            &&& about_double(
                segment_secs(c, loop_start, loop_end, source_len),
                if want < 1real / 50real {
                    1real / 50real
                } else {
                    want
                },
                1real / 0x10_0000real,
            )
            &&& about_double(
                segment_pos(c, segment_from(c, loop_start), source_len),
                from * amount_of_double(source_len),
                1real / 0x10_0000real,
            )
        }),
{
    lemma_constants();
    let (zero, unity) = (single(0), single(0x3f80_0000));
    lemma_kept(loop_start, zero, unity);
    lemma_kept(loop_end, zero, unity);
    let (s, e) = (loop_start.clamped(zero, unity), loop_end.clamped(zero, unity));
    lemma_widened(c, s);
    lemma_widened(c, e);
    let (p, q) = (s.to_f64(c), e.to_f64(c));
    let (x, y, n) = (amount(s), amount(e), amount_of_double(source_len));
    let t = 1real / 0x1_0000_0000_0000real;
    lemma_about_less_double(c, q, y, 0real, p, x, 0real, 1real, t);
    let d = q.sub(c, p);
    let g = 1real / 0x100_0000real;
    lemma_about_times_double(c, d, y - x, t, 1real, source_len, n, 0real, 0x10_0000real, g);
    let least = double(0x3f94_7ae1_47ae_147b);
    lemma_least_segment();
    lemma_greater_double(d.mul(c, source_len), least);
    lemma_about_times_double(c, p, x, 0real, 1real, source_len, n, 0real, 0x10_0000real, g);
    lemma_greater_double(p.mul(c, source_len), source_len);
    assert(x * n <= n) by (nonlinear_arith)
        requires
            x <= 1real,
            n >= 0real,
    ;
}

/// A fiftieth of a second.
proof fn lemma_least_segment()
    ensures
        double(0x3f94_7ae1_47ae_147b).finite(),
        size(amount_of_double(double(0x3f94_7ae1_47ae_147b)) - 1real / 50real) <= 1real / 0x1000_0000real,
{
    lemma_constant_double(0x3f94_7ae1_47ae_147b, 0x14_7ae1_47ae_147b, 1017);
    lemma2_to64();
    lemma_pow2_adds(32, 26);
    assert(pow2(58) as real == 0x400_0000_0000_0000real);
    assert(amount_of_double(double(0x3f94_7ae1_47ae_147b)) * 0x400_0000_0000_0000real == 0x14_7ae1_47ae_147breal);
}

/// A repetition plays the row's segment once through at the row's pitch: from the segment's
/// start, as long as the segment is at that ratio, with the row's own gain and shape, and
/// backwards from a probability of one half on.
pub proof fn law_repetitions_play_the_segment<K: Fn(Op, Width, u64, u64) -> u64>(c: &Calc<K>, span: RowSpan, g: GrainSettings, from: F64, seg: F64, t: F64, x: u64, id: u64)
    requires
        rounds(c),
        rounds_doubles(c),
        converts(c),
        seg.finite() && 1real / 64real <= amount_of_double(seg) <= 0x1000real,
        ({
            let e = repetition(c, span, g, from, seg, t, x, id);
            e.pitch_ratio.finite() && 1real / 64real <= amount(e.pitch_ratio) <= 64real
        }),
    ensures
        ({
            let e = repetition(c, span, g, from, seg, t, x, id);
            let want = amount_of_double(seg) / amount(e.pitch_ratio);
            &&& e.gain == g.gain
            &&& e.envelope == g.envelope
            &&& e.env_skew == g.env_skew
            &&& e.id == id
            &&& about(e.duration, kept_within(want, 1real / 50real, 60real), 1real / 0x1000real)
            &&& single(0x3f00_0000).le(g.reverse_prob) <==> e.reverse
            &&& span.key is None ==> e.pitch_ratio == semitones_to_ratio(c, g.pitch).mul(c, detuning(c, g.detune_cents))
            &&& e.pitch_ratio == effective(c, g.pitch, span.key, span.base_hz, g.quantize_amount, g.detune_cents)
        }),
{
    let e = repetition(c, span, g, from, seg, t, x, id);
    let ratio = e.pitch_ratio;
    lemma2_to64();
    let least = single(0x3c23_d70a);
    lemma_constant(0x3c23_d70a, 0xa3_d70a, 120);
    assert(pow2(30) as real == 0x4000_0000real);
    assert(amount(least) * 0x4000_0000real == 0xa3_d70areal);
    lemma_compared(ratio, least);
    assert(ratio.max(least) == ratio);
    lemma_widened(c, ratio);
    let r = ratio.to_f64(c);
    let n = amount_of_double(seg);
    let k = amount(ratio);
    lemma_quotient(n, k);
    let q = n / k;
    assert(0real <= q <= 0x4_0000real) by (nonlinear_arith)
        requires
            q * k == n,
            0real <= n <= 0x1000real,
            k >= 1real / 64real,
    ;
    let b = 1real / 0x1000_0000real;
    lemma_about_over_double(c, seg, n, 0real, r, 1real / 64real, 0x4_0000real, b);
    let d = seg.div(c, r);
    let (lo, hi) = (double(0x3f94_7ae1_47ae_147b), double(0x404e_0000_0000_0000));
    lemma_least_segment();
    lemma_constant_double(0x404e_0000_0000_0000, 0x1e_0000_0000_0000, 1028);
    lemma_pow2_adds(32, 15);
    assert(pow2(47) as real == 0x8000_0000_0000real);
    assert(amount_of_double(hi) * 0x8000_0000_0000real == 0x1e_0000_0000_0000real);
    lemma_compared_double(d, lo);
    lemma_compared_double(hi, d);
    let m = d.clamped(lo, hi);
    lemma_narrowed(c, m, 61real);
}

} // verus!
