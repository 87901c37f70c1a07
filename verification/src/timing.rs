//! When grains come, with arithmetic that rounds to nearest.
use crate::auto::AutomationLane;
use crate::calc::{Calc, Op, Width};
use crate::dsp::{drawn_unit, law_unit_draws_stay_in_range, stirred};
use crate::grain::{after_grain, free, grain, grain_end, grain_interval, note_grain, settings_in_force, slot_chance, slot_length, synced, voices_of, GrainEvent, GrainSettings, Span};
use crate::music::semitones_to_ratio;
use crate::num::{double, single, F32, F64};
use crate::reals::{
    about, about_double, amount, amount_of_double, converts, kept_within, lemma_about_less, lemma_about_over, lemma_about_over_double, lemma_about_plus,
    lemma_about_plus_double, lemma_about_times, lemma_about_times_double, lemma_compared, lemma_compared_double, lemma_constant, lemma_constant_double,
    lemma_constants, lemma_greater, lemma_greater_double, lemma_kept, lemma_narrowed, lemma_quotient, lemma_widened, speck,
};
use crate::rounding::rounds;
use crate::rounding_double::rounds_doubles;
use crate::spread::lemma_single_counts;
use crate::video::{draw_alpha, visible, Look};
use vstd::arithmetic::power2::{lemma2_to64, lemma_pow2_adds, pow2};
use vstd::prelude::*;

verus! {

proof fn lemma_one_and_half()
    ensures
        double(0x3ff0_0000_0000_0000).finite(),
        amount_of_double(double(0x3ff0_0000_0000_0000)) == 1real,
        double(0x3fe0_0000_0000_0000).finite(),
        amount_of_double(double(0x3fe0_0000_0000_0000)) == 1real / 2real,
{
    lemma2_to64();
    let (a, b) = (double(0x3ff0_0000_0000_0000), double(0x3fe0_0000_0000_0000));
    lemma_constant_double(0x3ff0_0000_0000_0000, 0x10_0000_0000_0000, 1023);
    lemma_constant_double(0x3fe0_0000_0000_0000, 0x10_0000_0000_0000, 1022);
    lemma_pow2_adds(32, 20);
    lemma_pow2_adds(32, 21);
    assert(pow2(52) as real == 0x10_0000_0000_0000real);
    assert(pow2(53) as real == 0x20_0000_0000_0000real);
    assert(amount_of_double(a) * 0x10_0000_0000_0000real == 0x10_0000_0000_0000real);
    assert(amount_of_double(b) * 0x20_0000_0000_0000real == 0x10_0000_0000_0000real);
}

proof fn lemma_draw(x: u64)
    ensures
        drawn_unit(x).finite(),
        0real <= amount(drawn_unit(x)) <= 1real,
{
    law_unit_draws_stay_in_range(x);
    lemma_constants();
    let d = drawn_unit(x);
    lemma_compared(d, single(0x3f80_0000));
    lemma_compared(single(0), d);
}

/// Grains of a free cloud come as often as the density says: one after another in half to one
/// and a half of the mean time, by the draw.
pub proof fn law_free_grains_follow_the_density<K: Fn(Op, Width, u64, u64) -> u64>(c: &Calc<K>, density: F32, u: F32)
    requires
        rounds_doubles(c),
        density.finite() && 1real / 16real <= amount(density) <= 0x400real,
        u.finite() && 0real <= amount(u) <= 1real,
    ensures
        about_double(grain_interval(c, density, u), (1real / 2real + amount(u)) / amount(density), 1real / 0x100_0000real),
{
    lemma_one_and_half();
    lemma2_to64();
    let least = single(0x3c23_d70a);
    lemma_constant(0x3c23_d70a, 0xa3_d70a, 120);
    assert(pow2(30) as real == 0x4000_0000real);
    assert(amount(least) * 0x4000_0000real == 0xa3_d70areal);
    lemma_greater(density, least);
    let d = density.max(least);
    assert(amount(d) == amount(density));
    lemma_widened(c, d);
    lemma_widened(c, u);
    let w = 1real / 0x1_0000_0000real;
    let (a, b, y) = (double(0x3ff0_0000_0000_0000), double(0x3fe0_0000_0000_0000), amount(density));
    lemma_about_over_double(c, a, 1real, 0real, d.to_f64(c), 1real / 16real, 16real, w);
    lemma_about_plus_double(c, b, 1real / 2real, 0real, u.to_f64(c), amount(u), 0real, 2real, w);
    let (p, q) = (a.div(c, d.to_f64(c)), b.add(c, u.to_f64(c)));
    let (pr, qr) = (1real / y, 1real / 2real + amount(u));
    lemma_about_times_double(c, p, pr, w, 16real, q, qr, w, 2real, 1real / 0x100_0000real);
    lemma_quotient(1real, y);
    lemma_quotient(qr, y);
    let (l, r) = (pr * qr, qr / y);
    assert(l == r) by (nonlinear_arith)
        requires
            pr * y == 1real,
            l == pr * qr,
            r * y == qr,
            y > 0real,
    ;
}

/// A free cloud is a grain at its time, and the cloud that goes on as much later as was drawn.
pub proof fn law_free_clouds_go_on<K: Fn(Op, Width, u64, u64) -> u64>(c: &Calc<K>, span: Span, settings: GrainSettings, lanes: Seq<AutomationLane>, t: F64, k: u64, x: u64, id: u64) -> (t2: F64)
    requires
        rounds_doubles(c),
        k < u64::MAX,
        t.finite() && 0real <= amount_of_double(t) < 0x1000_0000real,
        span.len.finite() && amount_of_double(t) < amount_of_double(span.len),
        ({
            let d = settings_in_force(c, settings, lanes, span.secs_per_beat, t).density;
            d.finite() && 1real / 16real <= amount(d) <= 0x400real
        }),
    ensures
        ({
            let s = settings_in_force(c, settings, lanes, span.secs_per_beat, t);
            let first = grain(c, span, s, t, stirred(x), id);
            let all = free(c, span, settings, lanes, t, k, x, id);
            &&& first.len() <= all.len()
            &&& all.take(first.len() as int) == first
            &&& all.skip(first.len() as int) == free(c, span, settings, lanes, t2, (k + 1) as u64, after_grain(s, stirred(x)), id.wrapping_add(voices_of(s) as u64))
            &&& about_double(t2, amount_of_double(t) + (1real / 2real + amount(drawn_unit(x))) / amount(s.density), 1real / 0x10_0000real)
        }),
{
    let s = settings_in_force(c, settings, lanes, span.secs_per_beat, t);
    lemma_draw(x);
    lemma_compared_double(t, span.len);
    let u = drawn_unit(x);
    law_free_grains_follow_the_density(c, s.density, u);
    let gap = grain_interval(c, s.density, u);
    let want = (1real / 2real + amount(u)) / amount(s.density);
    lemma_quotient(1real / 2real + amount(u), amount(s.density));
    assert(0real <= want <= 32real) by (nonlinear_arith)
        requires
            want * amount(s.density) == 1real / 2real + amount(u),
            0real <= amount(u) <= 1real,
            amount(s.density) >= 1real / 16real,
    ;
    lemma_about_plus_double(c, t, amount_of_double(t), 0real, gap, want, 1real / 0x100_0000real, 0x2000_0000real, 1real / 0x10_0000real);
    let t2 = t.add(c, gap);
    let first = grain(c, span, s, t, stirred(x), id);
    let all = free(c, span, settings, lanes, t, k, x, id);
    let rest = free(c, span, settings, lanes, t2, (k + 1) as u64, after_grain(s, stirred(x)), id.wrapping_add(voices_of(s) as u64));
    assert(all == first + rest);
    assert(all.take(first.len() as int) =~= first);
    assert(all.skip(first.len() as int) =~= rest);
    t2
}

/// A slot of the grid is as long as its part of a beat, and no shorter than a millisecond.
pub proof fn law_slots_are_parts_of_a_beat<K: Fn(Op, Width, u64, u64) -> u64>(c: &Calc<K>, sync_div: F32, secs_per_beat: F64)
    requires
        rounds_doubles(c),
        sync_div.finite() && 0real <= amount(sync_div) <= 64real,
        secs_per_beat.finite() && 0real <= amount_of_double(secs_per_beat) <= 64real,
    ensures
        ({
            let want = amount(sync_div) * amount_of_double(secs_per_beat);
            about_double(
                slot_length(c, sync_div, secs_per_beat),
                if want < 1real / 1000real {
                    1real / 1000real
                } else {
                    want
                },
                1real / 0x1_0000_0000real,
            )
        }),
{
    lemma2_to64();
    let least = double(0x3f50_624d_d2f1_a9fc);
    lemma_constant_double(0x3f50_624d_d2f1_a9fc, 0x10_624d_d2f1_a9fc, 1013);
    lemma_pow2_adds(32, 30);
    assert(pow2(62) as real == 0x4000_0000_0000_0000real);
    assert(amount_of_double(least) * 0x4000_0000_0000_0000real == 0x10_624d_d2f1_a9fcreal);
    lemma_widened(c, sync_div);
    let d = sync_div.to_f64(c);
    lemma_about_times_double(c, d, amount(sync_div), 0real, 64real, secs_per_beat, amount_of_double(secs_per_beat), 0real, 64real, 1real / 0x2_0000_0000real);
    lemma_greater_double(d.mul(c, secs_per_beat), least);
}

/// A slot triggers with the chance that makes the density the mean rate, at most always.
pub proof fn law_slots_trigger_by_the_density<K: Fn(Op, Width, u64, u64) -> u64>(c: &Calc<K>, density: F32, slot: F64)
    requires
        rounds_doubles(c),
        converts(c),
        density.finite() && 0real <= amount(density) <= 0x400real,
        slot.finite() && 0real <= amount_of_double(slot) <= 0x1000real,
    ensures
        ({
            let want = amount(density) * amount_of_double(slot);
            about(
                slot_chance(c, density, slot),
                if want < 1real {
                    want
                } else {
                    1real
                },
                1real / 0x10_0000real,
            )
        }),
{
    lemma_one_and_half();
    lemma_widened(c, density);
    let d = density.to_f64(c);
    let w = 1real / 0x1000_0000real;
    lemma_about_times_double(c, d, amount(density), 0real, 0x400real, slot, amount_of_double(slot), 0real, 0x1000real, w);
    let p = d.mul(c, slot);
    lemma_greater_double(p, double(0x3ff0_0000_0000_0000));
    let want = amount(density) * amount_of_double(slot);
    assert(want >= 0real) by (nonlinear_arith)
        requires
            want == amount(density) * amount_of_double(slot),
            0real <= amount(density),
            0real <= amount_of_double(slot),
    ;
    lemma_narrowed(c, p.min(double(0x3ff0_0000_0000_0000)), 1real);
    assert(speck() <= 1real);
}

/// A synced cloud draws once for each slot before the end of the clip: a draw under the chance
/// of the slot is a grain there, and the cloud goes on with the next slot either way.
pub proof fn law_slots_are_drawn_for<K: Fn(Op, Width, u64, u64) -> u64>(c: &Calc<K>, span: Span, settings: GrainSettings, lanes: Seq<AutomationLane>, k: u64, x: u64, id: u64)
    requires
        rounds_doubles(c),
        k < u64::MAX,
        span.len.finite(),
        ({
            let slot = slot_length(c, settings.sync_div, span.secs_per_beat);
            let t = F64::of_count(c, k).mul(c, slot);
            &&& t.finite()
            &&& amount_of_double(t) < amount_of_double(span.len)
            &&& slot_chance(c, settings_in_force(c, settings, lanes, span.secs_per_beat, t).density, slot).finite()
        }),
    ensures
        ({
            let slot = slot_length(c, settings.sync_div, span.secs_per_beat);
            let t = F64::of_count(c, k).mul(c, slot);
            let s = settings_in_force(c, settings, lanes, span.secs_per_beat, t);
            let chance = amount(slot_chance(c, s.density, slot));
            let all = synced(c, span, settings, lanes, k, x, id);
            let first = grain(c, span, s, t, stirred(x), id);
            &&& amount(drawn_unit(x)) < chance ==> first.len() <= all.len() && all.take(first.len() as int) == first && all.skip(
                first.len() as int,
            ) == synced(c, span, settings, lanes, (k + 1) as u64, after_grain(s, stirred(x)), id.wrapping_add(voices_of(s) as u64))
            &&& amount(drawn_unit(x)) >= chance ==> all == synced(c, span, settings, lanes, (k + 1) as u64, stirred(x), id)
        }),
{
    lemma_draw(x);
    let slot = slot_length(c, settings.sync_div, span.secs_per_beat);
    let t = F64::of_count(c, k).mul(c, slot);
    let s = settings_in_force(c, settings, lanes, span.secs_per_beat, t);
    lemma_compared_double(span.len, t);
    lemma_compared(drawn_unit(x), slot_chance(c, s.density, slot));
    if drawn_unit(x).lt(slot_chance(c, s.density, slot)) {
        let first = grain(c, span, s, t, stirred(x), id);
        let all = synced(c, span, settings, lanes, k, x, id);
        let rest = synced(c, span, settings, lanes, (k + 1) as u64, after_grain(s, stirred(x)), id.wrapping_add(voices_of(s) as u64));
        assert(all.take(first.len() as int) =~= first);
        assert(all.skip(first.len() as int) =~= rest);
    }
}

/// A note plays a grain as many semitones up as it is above middle C, as loud as it was struck.
pub proof fn law_notes_play_their_pitch<K: Fn(Op, Width, u64, u64) -> u64>(c: &Calc<K>, settings: GrainSettings, note: u8, velocity: u8, source_len: F64, onset: F64, id: u64) -> (st: F32)
    requires
        rounds(c),
        note <= 127,
        velocity <= 127,
        settings.pitch.finite() && -64real <= amount(settings.pitch) <= 64real,
        settings.gain.finite() && -16real <= amount(settings.gain) <= 16real,
        settings.pan.finite(),
        settings.reverse_prob.finite(),
    ensures
        ({
            let e = note_grain(c, settings, note, velocity, source_len, onset, id);
            &&& about(st, amount(settings.pitch) + (note as real) - 60real, 1real / 0x2000real)
            &&& e.pitch_ratio == semitones_to_ratio(c, st)
            &&& about(e.gain, amount(settings.gain) * ((velocity as real) / 127real), 1real / 0x4000real)
            &&& amount(e.pan) == kept_within(amount(settings.pan), -1real, 1real)
            &&& e.reverse <==> amount(settings.reverse_prob) >= 1real / 2real
            &&& e.onset == onset
            &&& e.id == id
        }),
{
    let u = 1real / 0x40_0000real;
    lemma_constants();
    lemma2_to64();
    let (sixty, top) = (single(0x4270_0000), single(0x42fe_0000));
    lemma_constant(0x4270_0000, 0xf0_0000, 132);
    lemma_constant(0x42fe_0000, 0xfe_0000, 133);
    assert(pow2(18) as real == 0x4_0000real);
    assert(pow2(17) as real == 0x2_0000real);
    assert(amount(sixty) * 0x4_0000real == 0xf0_0000real);
    assert(amount(top) * 0x2_0000real == 0xfe_0000real);
    lemma_single_counts(c, note as u64);
    lemma_single_counts(c, velocity as u64);
    let (n, v) = (F32::of_count(c, note as u64), F32::of_count(c, velocity as u64));
    lemma_about_less(c, n, note as real, 0real, sixty, 60real, 0real, 70real, 72real * u);
    lemma_about_plus(c, settings.pitch, amount(settings.pitch), 0real, n.sub(c, sixty), note as real - 60real, 72real * u, 140real, 220real * u);
    lemma_about_over(c, v, velocity as real, 0real, top, 127real, 1real, 3real * u);
    lemma_about_times(c, settings.gain, amount(settings.gain), 0real, 16real, v.div(c, top), (velocity as real) / 127real, 3real * u, 1real, 70real * u);
    lemma_kept(settings.pan, single(0xbf80_0000), single(0x3f80_0000));
    lemma_compared(single(0x3f00_0000), settings.reverse_prob);
    settings.pitch.add(c, n.sub(c, sixty))
}

/// A grain shows while it sounds: from its onset for as long as it lasts, as long as it is not
/// too faint.
pub proof fn law_grains_show_while_they_sound<K: Fn(Op, Width, u64, u64) -> u64>(c: &Calc<K>, look: Look, ev: GrainEvent, t: F64)
    requires
        rounds_doubles(c),
        t.finite(),
        ev.onset.finite() && -0x1000_0000real <= amount_of_double(ev.onset) <= 0x1000_0000real,
        ev.duration.finite() && 0real <= amount(ev.duration) <= 0x1000real,
        draw_alpha(c, look.link, ev, t).finite(),
    ensures
        ({
            let (at, end) = (amount_of_double(t), amount_of_double(ev.onset) + amount(ev.duration));
            let alpha = amount(draw_alpha(c, look.link, ev, t));
            let slack = 1real / 0x10_0000real;
            &&& visible(c, look, ev, t) ==> amount_of_double(ev.onset) <= at < end + slack && alpha > 3real / 1000real - slack
            &&& amount_of_double(ev.onset) <= at < end - slack && alpha > 3real / 1000real + slack ==> visible(c, look, ev, t)
        }),
{
    lemma2_to64();
    let faint = single(0x3b44_9ba6);
    lemma_constant(0x3b44_9ba6, 0xc4_9ba6, 118);
    assert(pow2(32) as real == 0x1_0000_0000real);
    assert(amount(faint) * 0x1_0000_0000real == 0xc4_9ba6real);
    lemma_widened(c, ev.duration);
    lemma_about_plus_double(c, ev.onset, amount_of_double(ev.onset), 0real, ev.duration.to_f64(c), amount(ev.duration), 0real, 0x1001_0000real, 1real / 0x20_0000real);
    lemma_compared_double(t, ev.onset);
    lemma_compared_double(grain_end(c, ev), t);
    lemma_compared(draw_alpha(c, look.link, ev, t), faint);
}

} // verus!
