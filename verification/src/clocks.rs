//! Where grains start in a stream: clocks that count in doubles agree to the sample, with
//! arithmetic that rounds to nearest.
use crate::audio::grain_start;
use crate::calc::{Calc, Op, Width};
use crate::grain::GrainEvent;
use crate::num::{double, F64};
use crate::realtime::{
    beat_sample, blocks, blocks_line_up, fresh_engine, law_blocks_are_the_offline_render, law_faders_line_up, parts_line_up,
    plan_lines_up, starts_line_up, stream_time, total, without_latency,
};
use crate::render::{planned, project_sound, PlanView};
use crate::rounding::apart;
use crate::rounding_double::{
    lemma_count, lemma_div, lemma_error, lemma_in_reach, lemma_largest, lemma_mul, lemma_sub, rounds_doubles, unit,
};
use crate::timeline::Project;
use vstd::arithmetic::power2::{lemma2_to64, lemma_pow2_adds, lemma_pow2_pos, lemma_pow2_strictly_increases, pow2};
use vstd::prelude::*;

verus! {

/// Whether an arithmetic rounds doubles to a whole number no further than one half away, and
/// converts whole numbers exactly.
#[verifier::opaque]
pub open spec fn rounds_to_whole<K: Fn(Op, Width, u64, u64) -> u64>(c: &Calc<K>) -> bool {
    &&& forall|a: F64|
        a.finite() && apart(a.value(), 0) <= 0x4000_0000_0000_0000 * unit() ==> {
            &&& (#[trigger] a.round(c)).finite()
            &&& a.round(c).value() % unit() == 0
            &&& 2 * apart(a.round(c).value(), a.value()) <= unit()
        }
    &&& forall|a: F64|
        a.finite() && a.value() % unit() == 0 && i64::MIN <= a.value() / unit() <= i64::MAX ==> #[trigger] a.to_int(c)
            == a.value() / unit()
}

/// Whether a time is within 2^20 seconds of the start, and at least a 1024th of a sample
/// away from the middle between two samples.
pub open spec fn between_samples(onset: F64, rate: u32) -> bool {
    &&& onset.finite()
    &&& apart(onset.value(), 0) <= 0x10_0000 * unit()
    &&& 512 * apart(2 * ((onset.value() * rate) % unit()), unit()) >= unit()
}

/// The sample that is nearest to a time.
pub open spec fn sample_nearest(onset: F64, rate: u32) -> int {
    (2 * (onset.value() * rate) + unit()) / (2 * unit())
}

/// How large the steps of doubles are that count seconds and samples.
proof fn lemma_steps()
    ensures
        unit() > 0,
        unit() == 0x8000_0000 * pow2(1043),
        pow2(1044) == 2 * pow2(1043),
        pow2(1063) == 0x10_0000 * pow2(1043),
        pow2(1043) > 0,
{
    lemma2_to64();
    lemma_pow2_pos(1043);
    lemma_pow2_adds(31, 1043);
    lemma_pow2_adds(1, 1043);
    lemma_pow2_adds(20, 1043);
}

/// Numbers up to 2^62 are within reach.
pub(crate) proof fn lemma_within(n: int, d: int)
    requires
        d > 0,
        apart(n, 0) <= 0x4000_0000_0000_0000 * (unit() * d),
    ensures
        crate::rounding_double::reached(n, d),
{
    lemma2_to64();
    lemma_pow2_adds(32, 30);
    lemma_pow2_adds(62, 1074);
    lemma_pow2_strictly_increases(1136, 2045);
    lemma_pow2_pos(1074);
    let top = double(0x7fef_ffff_ffff_ffff);
    lemma_largest(top);
    let (u, t) = (unit(), pow2(2045) as int);
    assert(0x4000_0000_0000_0000 * (u * d) <= top.value() * d) by (nonlinear_arith)
        requires
            top.value() == 0x1f_ffff_ffff_ffff * t,
            0x4000_0000_0000_0000 * u <= t,
            u > 0,
            d > 0,
    {
        assert((0x4000_0000_0000_0000 * u) * d <= t * d);
        assert(t * d >= 0);
        assert((0x1f_ffff_ffff_ffff * t) * d == 0x1f_ffff_ffff_ffff * (t * d));
    }
    lemma_in_reach(n, d);
}

/// The time of a sample, in steps of 2^-31 seconds.
#[verifier::rlimit(40)]
proof fn lemma_stream_time<K: Fn(Op, Width, u64, u64) -> u64>(c: &Calc<K>, rate: u32, pos: u64)
    requires
        rounds_doubles(c),
        1 <= rate <= 0x4_0000,
        pos <= 0x10_0000 * rate,
    ensures
        stream_time(c, rate, pos).finite(),
        apart(stream_time(c, rate, pos).value() * rate, pos * unit()) <= rate * pow2(1043),
{
    let (u, g) = (unit(), pow2(1043) as int);
    lemma_steps();
    lemma_count(c, pos);
    lemma_count(c, rate as u64);
    let (p, r) = (F64::of_count(c, pos), F64::of_count(c, rate as u64));
    let (n, d) = (p.value() * u, r.value());
    let t = stream_time(c, rate, pos);
    assert(d > 0 && 0 <= n && n <= 0x10_0000 * (u * d) && n == (pos * u) * u) by (nonlinear_arith)
        requires
            d == rate * u,
            n == (pos * u) * u,
            0 <= pos <= 0x10_0000 * rate,
            rate >= 1,
            u > 0,
    {
        assert(pos * (u * u) <= (0x10_0000 * rate) * (u * u));
        assert((pos * u) * u == pos * (u * u));
        assert((0x10_0000 * rate) * (u * u) == 0x10_0000 * (u * (rate * u)));
    }
    assert(u * d >= 0) by (nonlinear_arith)
        requires
            u > 0,
            d > 0,
    ;
    lemma_within(n, d);
    lemma_div(c, p, r);
    assert(apart(n, 0) < 0x10_0000_0000_0000 * (g * d)) by (nonlinear_arith)
        requires
            0 <= n <= 0x10_0000 * (u * d),
            u == 0x8000_0000 * g,
            g > 0,
            d > 0,
    {
        assert(u * d == 0x8000_0000 * (g * d));
        assert(g * d > 0);
    }
    lemma_error(t, n, d, 1044);
    assert(apart(t.value() * rate, pos * u) <= rate * g) by (nonlinear_arith)
        requires
            apart(t.value() * d, n) < g * d,
            d == rate * u,
            n == (pos * u) * u,
            u > 0,
    {
        let (a, b) = (t.value() * rate, pos * u);
        assert(t.value() * d == a * u);
        assert(g * d == (rate * g) * u);
        assert(a * u - b * u < (rate * g) * u);
        assert(b * u - a * u < (rate * g) * u);
        assert((a - b) * u < (rate * g) * u);
        assert((b - a) * u < (rate * g) * u);
    }
}

/// A stream places a grain on the sample that is nearest to its time, whatever sample the
/// stream starts at.
#[verifier::rlimit(40)]
proof fn lemma_start<K: Fn(Op, Width, u64, u64) -> u64>(c: &Calc<K>, ev: GrainEvent, rate: u32, pos: u64)
    requires
        rounds_doubles(c),
        rounds_to_whole(c),
        between_samples(ev.onset, rate),
        1 <= rate <= 0x4_0000,
        pos <= 0x10_0000 * rate,
    ensures
        grain_start(c, ev, F64::of_count(c, rate as u64), stream_time(c, rate, pos)) == sample_nearest(ev.onset, rate) - pos,
{
    let (u, g) = (unit(), pow2(1043) as int);
    lemma_steps();
    lemma_stream_time(c, rate, pos);
    lemma_count(c, rate as u64);
    let (t, o) = (stream_time(c, rate, pos).value(), ev.onset.value());
    let x = o * rate - pos * u;
    // The clock lies within 2^21 seconds.
    assert(apart(t, 0) <= 0x10_0001 * u) by (nonlinear_arith)
        requires
            apart(t * rate, pos * u) <= rate * g,
            0 <= pos <= 0x10_0000 * rate,
            rate >= 1,
            0 < g <= u,
            u > 0,
    {
        assert(0 <= pos * u && pos * u <= (0x10_0000 * rate) * u);
        assert(rate * g <= rate * u);
        assert(t * rate <= (0x10_0001 * u) * rate);
        assert(-(t * rate) <= (0x10_0001 * u) * rate);
    }
    // The time from the clock on.
    let n = o - t;
    lemma_within(n, 1);
    lemma_sub(c, ev.onset, stream_time(c, rate, pos));
    let d = ev.onset.sub(c, stream_time(c, rate, pos));
    lemma_error(d, n, 1, 1045);
    // In samples.
    let r = F64::of_count(c, rate as u64);
    let m = d.value() * r.value();
    let dr = d.value() * rate;
    assert(m == dr * u && apart(dr, 0) <= 0x100_0000_0000 * u) by (nonlinear_arith)
        requires
            m == d.value() * r.value(),
            dr == d.value() * rate,
            r.value() == rate * u,
            apart(d.value(), 0) <= 0x40_0000 * u,
            1 <= rate <= 0x4_0000,
            u > 0,
    {
        assert(d.value() * (rate * u) == (d.value() * rate) * u);
    }
    assert(apart(m, 0) <= 0x100_0000_0000 * (u * u)) by (nonlinear_arith)
        requires
            m == dr * u,
            apart(dr, 0) <= 0x100_0000_0000 * u,
            u > 0,
    ;
    assert(u * u > 0) by (nonlinear_arith)
        requires
            u > 0,
    ;
    lemma_within(m, u);
    lemma_mul(c, d, r);
    let s = d.mul(c, r);
    let g2 = pow2(1063) as int;
    assert(apart(m, 0) < 0x10_0000_0000_0000 * (g2 * u)) by (nonlinear_arith)
        requires
            apart(m, 0) <= 0x100_0000_0000 * (u * u),
            u == 0x800 * g2,
            g2 > 0,
            u > 0,
    {
        assert(u * u == 0x800 * (g2 * u));
        assert(g2 * u > 0);
    }
    lemma_error(s, m, u, 1064);
    assert(apart(s.value(), dr) < g2) by (nonlinear_arith)
        requires
            apart(s.value() * u, m) < g2 * u,
            m == dr * u,
            u > 0,
    {
        assert((s.value() - dr) * u < g2 * u);
        assert((dr - s.value()) * u < g2 * u);
    }
    // How far that is from the exact place.
    assert(apart(dr, n * rate) <= rate * (2 * g)) by (nonlinear_arith)
        requires
            dr == d.value() * rate,
            apart(d.value(), n) < 2 * g,
            rate >= 1,
    {
        assert((d.value() - n) * rate <= (2 * g) * rate);
        assert((n - d.value()) * rate <= (2 * g) * rate);
    }
    assert(n * rate == o * rate - t * rate) by (nonlinear_arith)
        requires
            n == o - t,
    ;
    assert(rate * g <= 0x4_0000 * g && rate * (2 * g) == 2 * (rate * g)) by (nonlinear_arith)
        requires
            rate <= 0x4_0000,
            g > 0,
    ;
    assert(1024 * apart(s.value(), x) < u);
    // The whole number next to it.
    let w = s.round(c);
    assert(w.finite() && w.value() % u == 0 && 2 * apart(w.value(), s.value()) <= u) by {
        reveal(rounds_to_whole);
    }
    let (q, f) = (o * rate / u, (o * rate) % u);
    assert(o * rate == q * u + f && 0 <= f < u) by (nonlinear_arith)
        requires
            q == o * rate / u,
            f == (o * rate) % u,
            u > 0,
    ;
    let near = sample_nearest(ev.onset, rate);
    assert(near == if 2 * f < u {
        q
    } else {
        q + 1
    }) by (nonlinear_arith)
        requires
            near == (2 * (o * rate) + u) / (2 * u),
            o * rate == q * u + f,
            0 <= f < u,
            u > 0,
    {
        assert(2 * (o * rate) + u == q * (2 * u) + (2 * f + u));
        if 2 * f < u {
            assert((q * (2 * u) + (2 * f + u)) / (2 * u) == q);
        } else {
            assert(q * (2 * u) + (2 * f + u) == (q + 1) * (2 * u) + (2 * f - u));
            assert(((q + 1) * (2 * u) + (2 * f - u)) / (2 * u) == q + 1);
        }
    }
    let k = near - pos;
    let ku = k * u;
    assert((q + 1) * u == q * u + u && ku == near * u - pos * u) by (nonlinear_arith)
        requires
            ku == k * u,
            k == near - pos,
    ;
    assert(512 * (u - 2 * apart(ku, x)) >= u);
    assert(apart(w.value(), ku) < u);
    let v = w.value() / u;
    assert(v == k) by (nonlinear_arith)
        requires
            v == w.value() / u,
            w.value() % u == 0,
            ku == k * u,
            apart(w.value(), ku) < u,
            u > 0,
    {
        assert(w.value() == v * u);
        assert((v - k) * u < u);
        assert((k - v) * u < u);
    }
    assert(-0x1000_0000_0000 <= k <= 0x1000_0000_0000) by (nonlinear_arith)
        requires
            ku == k * u,
            apart(w.value(), ku) < u,
            apart(w.value(), 0) <= 0x200_0000_0000 * u,
            u > 0,
    ;
    assert(w.to_int(c) == w.value() / u) by {
        reveal(rounds_to_whole);
    }
}

/// Whether every event of a plan starts between two samples, and not in the middle.
pub open spec fn starts_between_samples(plan: Seq<PlanView>, rate: u32) -> bool {
    forall|i: int, k: int, e: int|
        0 <= i < plan.len() && 0 <= k < plan[i].parts.len() && 0 <= e < plan[i].parts[k].1.len() ==> between_samples(
            (#[trigger] plan[i].parts[k].1[e]).onset,
            rate,
        )
}

/// The clocks of blocks of any sizes agree, to the sample, on where every grain starts that
/// is not due in the middle between two samples: for streams of up to 2^20 seconds at up to
/// 262144 samples a second.
pub proof fn law_clocks_line_up<K: Fn(Op, Width, u64, u64) -> u64>(c: &Calc<K>, project: Project, plan: Seq<PlanView>, pos: u64, sizes: Seq<nat>)
    requires
        rounds_doubles(c),
        rounds_to_whole(c),
        1 <= project.sample_rate <= 0x4_0000,
        pos + total(sizes) <= 0x10_0000 * project.sample_rate,
        starts_between_samples(plan, project.sample_rate),
    ensures
        blocks_line_up(c, project, plan, pos, sizes),
{
    let rate = project.sample_rate;
    assert forall|k: int| 0 <= k < sizes.len() implies plan_lines_up(
        c,
        plan,
        rate,
        stream_time(c, rate, pos),
        stream_time(c, rate, pos.wrapping_add(total(#[trigger] sizes.take(k)) as u64)),
        total(sizes.take(k)) as int,
    ) by {
        lemma_total_of_some(sizes, k);
        let n = total(sizes.take(k));
        let at = pos.wrapping_add(n as u64);
        assert(at == pos + n);
        let (t0, t1) = (stream_time(c, rate, pos), stream_time(c, rate, at));
        assert forall|i: int| 0 <= i < plan.len() implies parts_line_up(
            c,
            (#[trigger] plan[i]).parts,
            rate,
            t0,
            t1,
            n as int,
        ) by {
            let parts = plan[i].parts;
            assert forall|j: int| 0 <= j < parts.len() implies starts_line_up(
                c,
                (#[trigger] parts[j]).1,
                rate,
                t0,
                t1,
                n as int,
            ) by {
                let events = parts[j].1;
                assert forall|e: int| 0 <= e < events.len() implies grain_start(
                    c,
                    #[trigger] events[e],
                    F64::of_count(c, rate as u64),
                    t1,
                ) == grain_start(c, events[e], F64::of_count(c, rate as u64), t0) - n by {
                    assert(between_samples(plan[i].parts[j].1[e].onset, rate));
                    lemma_start(c, events[e], rate, pos);
                    lemma_start(c, events[e], rate, at);
                }
            }
        }
    }
}

/// A fresh engine that is pulled in blocks of any sizes plays, sample for sample, what the
/// offline renderer gives: for projects without compressors or automated levels whose
/// grains are not due in the middle between two samples.
pub proof fn law_any_blocks_are_the_offline_render<K: Fn(Op, Width, u64, u64) -> u64>(c: &Calc<K>, project: Project, start_beat: F64, sizes: Seq<nat>)
    requires
        rounds_doubles(c),
        rounds_to_whole(c),
        without_latency(c, project),
        forall|ti: int|
            0 <= ti < project.tracks@.len() ==> (#[trigger] project.tracks@[ti]).level_points@.len() == 0,
        1 <= project.sample_rate <= 0x4_0000,
        beat_sample(c, project.bpm, project.sample_rate, start_beat) + total(sizes) <= 0x10_0000 * project.sample_rate,
        starts_between_samples(planned(c, project), project.sample_rate),
    ensures
        ({
            let plan = planned(c, project);
            let e = fresh_engine(c, project, start_beat, None);
            let t0 = stream_time(c, project.sample_rate, e.pos);
            let (after, played) = blocks(c, project, plan, e, sizes);
            &&& played == project_sound(c, project, plan, total(sizes), t0)
            &&& after.pos == e.pos + total(sizes)
        }),
{
    let pos = beat_sample(c, project.bpm, project.sample_rate, start_beat);
    let t0 = stream_time(c, project.sample_rate, pos);
    law_faders_line_up(c, project, total(sizes), t0, pos);
    law_clocks_line_up(c, project, planned(c, project), pos, sizes);
    law_blocks_are_the_offline_render(c, project, start_beat, sizes, t0);
}

/// The first blocks hold no more than all of them.
proof fn lemma_total_of_some(sizes: Seq<nat>, k: int)
    requires
        0 <= k <= sizes.len(),
    ensures
        total(sizes.take(k)) <= total(sizes),
    decreases sizes.len(),
{
    if k == sizes.len() {
        assert(sizes.take(k) =~= sizes);
    } else {
        lemma_total_of_some(sizes.drop_last(), k);
        assert(sizes.drop_last().take(k) =~= sizes.take(k));
    }
}

} // verus!
