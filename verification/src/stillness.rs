//! What nothing gives: silence out of silence and black out of black, with arithmetic that
//! rounds to nearest.
use crate::audio::{grain_samples, grain_start, left_mixed, right_mixed, soft_clipped};
use crate::calc::{Calc, Op, Width};
use crate::fft::{
    crossed_difference, crossed_sum, hann_of, lemma_reversed_bound, paired, reordered, reversed, stages, step_factor,
    transformed, turned, twiddle, Cpx,
};
use crate::fx::{lerp, AvEffect, EffectKind, BYPASS};
use crate::fx_audio::{
    chain_block, comb_sum, combed, compresses, compressors, crush_factor, crush_levels, crush_step, delay_step,
    effect_block, fresh_state, fresh_states, law_chains_keep_length, law_rendering_keeps_length, pass_chain, rendered_chain, tank_damp,
    tank_feedback, tank_step, CombView, CrushState, FxView, LineView, TankView,
};
use crate::grain::GrainEvent;
use crate::masks::{lemma_ones, lemma_small_pattern};
use crate::num::{law_single_order_is_numeric, single, single_value, F32, F64};
use crate::render::{
    clip_mixed, leveled, parts_mixed, plays, project_sound, sample_beat, summed, track_mixed, track_sound, tracks_mixed,
    PlanView, Stereo,
};
use crate::rounding::{
    edge, lemma_add_small, lemma_exact, lemma_finite, lemma_mul_small, lemma_root, lemma_sub_small, one, reached, rounded, rounds,
};
use crate::spectra::{lemma_place, lemma_share, numeric};
use crate::spectral::{
    crunched, fresh_spectral, gain_at, lemma_windows, mirrored, overlapped, spectral_block, spectrum, thinned, windowed,
    windows_in, zeros, SPECTRAL_HOP, SPECTRAL_N,
};
use crate::stream::run;
use crate::timeline::{Clip, Project};
use vstd::arithmetic::power2::{lemma2_to64, lemma_pow2_adds, lemma_pow2_pos, lemma_pow2_unfold, pow2};
use vstd::prelude::*;

verus! {

// --------------------------------------------------------------------- zero

/// Whether a single is one of the zeros.
pub open spec fn nil(x: F32) -> bool {
    x.mag() == 0
}

/// Whether all samples are zero.
pub open spec fn silent(s: Seq<F32>) -> bool {
    forall|i: int| 0 <= i < s.len() ==> nil(#[trigger] s[i])
}

pub(crate) proof fn lemma_nil(x: F32)
    requires
        x.finite(),
    ensures
        nil(x) <==> x.value() == 0,
{
    let zero = F32 { bits: 0 };
    assert(single_value(0) == 0);
    law_single_order_is_numeric(x, zero);
    law_single_order_is_numeric(zero, x);
}

/// What rounds to zero.
pub(crate) proof fn lemma_rounds_to_nil(x: F32, d: int)
    requires
        rounded(x, 0, d),
        d > 0,
    ensures
        nil(x),
        x.finite(),
{
    lemma_pow2_pos(252);
    assert(reached(0, d)) by (nonlinear_arith)
        requires
            edge() > 0,
            d > 0,
            reached(0, d) <==> 0 < edge() * d,
    ;
    let zero = F32 { bits: 0 };
    assert(single_value(0) == 0);
    assert(zero.value() * d == 0) by (nonlinear_arith)
        requires
            zero.value() == 0,
    ;
    lemma_finite(x, 0, d);
    lemma_exact(x, 0, d, zero);
    lemma_nil(x);
}

pub(crate) proof fn lemma_nil_times<K: Fn(Op, Width, u64, u64) -> u64>(c: &Calc<K>, z: F32, x: F32)
    requires
        rounds(c),
        nil(z),
        x.finite(),
    ensures
        nil(z.mul(c, x)),
        nil(x.mul(c, z)),
{
    reveal(rounds);
    lemma_nil(z);
    lemma_pow2_pos(149);
    assert(z.value() * x.value() == 0 && x.value() * z.value() == 0) by (nonlinear_arith)
        requires
            z.value() == 0,
    ;
    lemma_rounds_to_nil(z.mul(c, x), one());
    lemma_rounds_to_nil(x.mul(c, z), one());
}

pub(crate) proof fn lemma_nils<K: Fn(Op, Width, u64, u64) -> u64>(c: &Calc<K>, y: F32, z: F32)
    requires
        rounds(c),
        nil(y),
        nil(z),
    ensures
        nil(y.add(c, z)),
        nil(y.sub(c, z)),
        nil(y.minus()),
{
    reveal(rounds);
    lemma_nil(y);
    lemma_nil(z);
    lemma_rounds_to_nil(y.add(c, z), 1);
    lemma_rounds_to_nil(y.sub(c, z), 1);
}

pub(crate) proof fn lemma_nil_over<K: Fn(Op, Width, u64, u64) -> u64>(c: &Calc<K>, z: F32, d: F32)
    requires
        rounds(c),
        nil(z),
        d.finite(),
        d.value() > 0,
    ensures
        nil(z.div(c, d)),
{
    reveal(rounds);
    lemma_nil(z);
    assert(z.value() * one() == 0) by (nonlinear_arith)
        requires
            z.value() == 0,
    ;
    lemma_rounds_to_nil(z.div(c, d), d.value());
}

pub(crate) proof fn lemma_nil_round<K: Fn(Op, Width, u64, u64) -> u64>(c: &Calc<K>, z: F32)
    requires
        rounds(c),
        nil(z),
    ensures
        nil(z.round(c)),
{
    reveal(rounds);
    lemma_nil(z);
    lemma_pow2_pos(149);
    assert(0int % one() == 0) by (nonlinear_arith)
        requires
            one() > 0,
    ;
    lemma_nil(z.round(c));
}

// ------------------------------------------------------------------ effects

/// Whether an effect's sound side is off, or one that echoes, smears, crushes or compresses
/// by numbers.
pub open spec fn steady<K: Fn(Op, Width, u64, u64) -> u64>(c: &Calc<K>, fx: AvEffect) -> bool {
    fx.audio.le(single(BYPASS)) || match fx.kind {
        EffectKind::Crush { downsample, bits } => crush_levels(c, bits, fx.audio).finite() && crush_levels(
            c,
            bits,
            fx.audio,
        ).value() > 0,
        EffectKind::Delay { feedback, mix, .. } => feedback.finite() && mix.mul(c, fx.audio).finite(),
        EffectKind::Reverb { size, damp, mix } => size.finite() && damp.finite() && mix.mul(c, fx.audio).finite(),
        EffectKind::Compress { .. } => compresses(c, fx) ==> crunches_by_numbers(c),
    }
}

/// Whether the weights of a compressor's window and the factors of its transforms are
/// numbers.
#[verifier::opaque]
pub open spec fn crunches_by_numbers<K: Fn(Op, Width, u64, u64) -> u64>(c: &Calc<K>) -> bool {
    &&& forall|i: int| 0 <= i < SPECTRAL_N ==> (#[trigger] hann_of(c, i as u64, SPECTRAL_N as u64)).finite()
    &&& forall|s: nat, k: int, inverse: bool|
        1 <= s <= 10 && 0 <= k < pow2((s - 1) as nat) ==> numeric(
            #[trigger] twiddle(c, step_factor(c, pow2(s) as u64, inverse), k),
        )
}

pub open spec fn steady_chain<K: Fn(Op, Width, u64, u64) -> u64>(c: &Calc<K>, chain: Seq<AvEffect>) -> bool {
    forall|i: int| 0 <= i < chain.len() ==> steady(c, #[trigger] chain[i])
}

/// A processor that keeps something true of its state gives silence for silence.
proof fn lemma_run_silent<S>(step: spec_fn(S, F32) -> (S, F32), still: spec_fn(S) -> bool, s: S, xs: Seq<F32>)
    requires
        still(s),
        silent(xs),
        forall|t: S, x: F32|
            still(t) && nil(x) ==> still((#[trigger] step(t, x)).0) && nil(step(t, x).1),
    ensures
        still(run(step, s, xs).0),
        silent(run(step, s, xs).1),
    decreases xs.len(),
{
    if xs.len() > 0 {
        lemma_run_silent(step, still, s, xs.drop_last());
        let (t, ys) = run(step, s, xs.drop_last());
        assert(nil(xs.last()));
        let (u, y) = step(t, xs.last());
        assert(silent(ys.push(y)));
    }
}

spec fn still_line(s: LineView) -> bool {
    0 <= s.pos < s.ring.len() && silent(s.ring)
}

proof fn lemma_line_goes_on(s: LineView, x: F32)
    requires
        still_line(s),
        nil(x),
    ensures
        still_line(LineView { ring: s.ring.update(s.pos, x), pos: (s.pos + 1) % s.ring.len() as int }),
{
    let n = s.ring.len() as int;
    assert(0 <= (s.pos + 1) % n < n) by (nonlinear_arith)
        requires
            n > 0,
    ;
}

proof fn lemma_crush_silent<K: Fn(Op, Width, u64, u64) -> u64>(c: &Calc<K>, factor: F32, levels: F32, s: CrushState, xs: Seq<F32>)
    requires
        rounds(c),
        levels.finite(),
        levels.value() > 0,
        nil(s.hold),
        silent(xs),
    ensures
        nil(run(crush_step(c, factor, levels), s, xs).0.hold),
        silent(run(crush_step(c, factor, levels), s, xs).1),
{
    let step = crush_step(c, factor, levels);
    let still = |t: CrushState| nil(t.hold);
    assert forall|t: CrushState, x: F32| still(t) && nil(x) implies still((#[trigger] step(t, x)).0) && nil(
        step(t, x).1,
    ) by {
        lemma_nil_times(c, x, levels);
        lemma_nil_round(c, x.mul(c, levels));
        lemma_nil_over(c, x.mul(c, levels).round(c), levels);
    }
    lemma_run_silent(step, still, s, xs);
}

proof fn lemma_delay_silent<K: Fn(Op, Width, u64, u64) -> u64>(c: &Calc<K>, feedback: F32, mix: F32, s: LineView, xs: Seq<F32>)
    requires
        rounds(c),
        feedback.finite(),
        mix.finite(),
        still_line(s),
        silent(xs),
    ensures
        still_line(run(delay_step(c, feedback, mix), s, xs).0),
        silent(run(delay_step(c, feedback, mix), s, xs).1),
{
    let step = delay_step(c, feedback, mix);
    let still = |t: LineView| still_line(t);
    assert forall|t: LineView, x: F32| still(t) && nil(x) implies still((#[trigger] step(t, x)).0) && nil(
        step(t, x).1,
    ) by {
        let wet = t.ring[t.pos];
        assert(nil(wet));
        lemma_nil_times(c, wet, feedback);
        lemma_nil_times(c, wet, mix);
        lemma_nils(c, x, wet.mul(c, feedback));
        lemma_nils(c, x, wet.mul(c, mix));
        lemma_line_goes_on(t, x.add(c, wet.mul(c, feedback)));
    }
    lemma_run_silent(step, still, s, xs);
}

spec fn still_comb<K: Fn(Op, Width, u64, u64) -> u64>(c: &Calc<K>, s: CombView) -> bool {
    &&& still_line(s.line)
    &&& nil(s.store)
    &&& s.feedback.finite()
    &&& s.damp.finite()
    &&& single(0x3f80_0000).sub(c, s.damp).finite()
}

spec fn still_tank<K: Fn(Op, Width, u64, u64) -> u64>(c: &Calc<K>, s: TankView) -> bool {
    &&& forall|k: int| 0 <= k < s.combs.len() ==> still_comb(c, #[trigger] s.combs[k])
    &&& forall|k: int| 0 <= k < s.aps.len() ==> still_line(#[trigger] s.aps[k])
}

proof fn lemma_comb_goes_on<K: Fn(Op, Width, u64, u64) -> u64>(c: &Calc<K>, s: CombView, x: F32)
    requires
        rounds(c),
        still_comb(c, s),
        nil(x),
    ensures
        still_comb(c, combed(c, s, x)),
{
    let out = s.line.ring[s.line.pos];
    assert(nil(out));
    let keep = single(0x3f80_0000).sub(c, s.damp);
    lemma_nil_times(c, out, keep);
    lemma_nil_times(c, s.store, s.damp);
    lemma_nils(c, out.mul(c, keep), s.store.mul(c, s.damp));
    let store = out.mul(c, keep).add(c, s.store.mul(c, s.damp));
    lemma_nil_times(c, store, s.feedback);
    lemma_nils(c, x, store.mul(c, s.feedback));
    lemma_line_goes_on(s.line, x.add(c, store.mul(c, s.feedback)));
}

proof fn lemma_comb_sum_nil<K: Fn(Op, Width, u64, u64) -> u64>(c: &Calc<K>, combs: Seq<CombView>, n: int)
    requires
        rounds(c),
        n <= combs.len(),
        forall|k: int| 0 <= k < combs.len() ==> still_comb(c, #[trigger] combs[k]),
    ensures
        nil(comb_sum(c, combs, n)),
    decreases n,
{
    if n > 0 {
        lemma_comb_sum_nil(c, combs, n - 1);
        assert(still_comb(c, combs[n - 1]));
        let out = combs[n - 1].line.ring[combs[n - 1].line.pos];
        assert(nil(out));
        lemma_nils(c, comb_sum(c, combs, n - 1), out);
    }
}

proof fn lemma_pass_chain_nil<K: Fn(Op, Width, u64, u64) -> u64>(c: &Calc<K>, aps: Seq<LineView>, x: F32, n: int)
    requires
        rounds(c),
        n <= aps.len(),
        nil(x),
        forall|k: int| 0 <= k < aps.len() ==> still_line(#[trigger] aps[k]),
    ensures
        nil(pass_chain(c, aps, x, n)),
    decreases n,
{
    if n > 0 {
        lemma_pass_chain_nil(c, aps, x, n - 1);
        assert(still_line(aps[n - 1]));
        let y = pass_chain(c, aps, x, n - 1);
        let out = aps[n - 1].ring[aps[n - 1].pos];
        assert(nil(out));
        lemma_nils(c, y, out);
        lemma_nils(c, y.minus(), out);
    }
}

proof fn lemma_tank_step<K: Fn(Op, Width, u64, u64) -> u64>(c: &Calc<K>, mix: F32, t: TankView, x: F32)
    requires
        rounds(c),
        mix.finite(),
        still_tank(c, t),
        nil(x),
    ensures
        still_tank(c, tank_step(c, mix)(t, x).0),
        nil(tank_step(c, mix)(t, x).1),
{
    let wet = comb_sum(c, t.combs, t.combs.len() as int);
    lemma_comb_sum_nil(c, t.combs, t.combs.len() as int);
    lemma_nil_times(c, x, single(0x3e80_0000));
    let feed = x.mul(c, single(0x3e80_0000));
    let (u, y) = tank_step(c, mix)(t, x);
    assert forall|k: int| 0 <= k < u.combs.len() implies still_comb(c, #[trigger] u.combs[k]) by {
        assert(still_comb(c, t.combs[k]));
        lemma_comb_goes_on(c, t.combs[k], feed);
    }
    assert forall|k: int| 0 <= k < u.aps.len() implies still_line(#[trigger] u.aps[k]) by {
        assert(still_line(t.aps[k]));
        lemma_pass_chain_nil(c, t.aps, wet, k);
        let (s, z) = (t.aps[k], pass_chain(c, t.aps, wet, k));
        let out = s.ring[s.pos];
        assert(nil(out));
        lemma_nil_times(c, out, single(0x3f00_0000));
        lemma_nils(c, z, out.mul(c, single(0x3f00_0000)));
        lemma_line_goes_on(s, z.add(c, out.mul(c, single(0x3f00_0000))));
    }
    let n = t.aps.len() as int;
    lemma_pass_chain_nil(c, t.aps, wet, n);
    let last = pass_chain(c, t.aps, wet, n);
    lemma_nil_times(c, last, mix);
    lemma_nils(c, x, last.mul(c, mix));
}

proof fn lemma_tank_silent<K: Fn(Op, Width, u64, u64) -> u64>(c: &Calc<K>, mix: F32, s: TankView, xs: Seq<F32>)
    requires
        rounds(c),
        mix.finite(),
        still_tank(c, s),
        silent(xs),
    ensures
        still_tank(c, run(tank_step(c, mix), s, xs).0),
        silent(run(tank_step(c, mix), s, xs).1),
{
    let step = tank_step(c, mix);
    let still = |t: TankView| still_tank(c, t);
    assert forall|t: TankView, x: F32| still(t) && nil(x) implies still((#[trigger] step(t, x)).0) && nil(
        step(t, x).1,
    ) by {
        lemma_tank_step(c, mix, t, x);
    }
    lemma_run_silent(step, still, s, xs);
}

/// The feedback and damping of a reverb are numbers.
proof fn lemma_tank_numbers<K: Fn(Op, Width, u64, u64) -> u64>(c: &Calc<K>, size: F32, damp: F32)
    requires
        rounds(c),
        size.finite(),
        damp.finite(),
    ensures
        tank_feedback(c, size).finite(),
        tank_damp(c, damp).finite(),
        single(0x3f80_0000).sub(c, tank_damp(c, damp)).finite(),
{
    lemma_ones();
    let (zero, unit) = (single(0), single(0x3f80_0000));
    let (a, b) = (size.limit(zero, unit), damp.limit(zero, unit));
    lemma_small_pattern(a, 0);
    lemma_small_pattern(b, 0);
    lemma_small_pattern(unit, 0);
    lemma_small_pattern(single(0x3f33_3333), 0);
    lemma_small_pattern(single(0x3e8f_5c29), 0);
    lemma_small_pattern(single(0x3f4c_cccd), 0);
    lemma_mul_small(c, single(0x3e8f_5c29), 0, a, 0);
    lemma_add_small(c, single(0x3f33_3333), single(0x3e8f_5c29).mul(c, a), 0);
    lemma_mul_small(c, b, 0, single(0x3f4c_cccd), 0);
    lemma_sub_small(c, unit, b.mul(c, single(0x3f4c_cccd)), 0);
}

// -------------------------------------------------------------- compressors

/// Whether all coefficients are zero.
spec fn blank(d: Seq<Cpx>) -> bool {
    forall|i: int| 0 <= i < d.len() ==> nil((#[trigger] d[i]).re) && nil(d[i].im)
}

/// What a butterfly makes of zeros.
proof fn lemma_butterfly_nil<K: Fn(Op, Width, u64, u64) -> u64>(c: &Calc<K>, x: Cpx, v: Cpx, w: Cpx)
    requires
        rounds(c),
        nil(x.re) && nil(x.im) && nil(v.re) && nil(v.im),
        numeric(w),
    ensures
        ({
            let t = turned(c, v, w);
            let (p, q) = (crossed_sum(c, x, t), crossed_difference(c, x, t));
            nil(p.re) && nil(p.im) && nil(q.re) && nil(q.im)
        }),
{
    let t = turned(c, v, w);
    lemma_nil_times(c, v.re, w.re);
    lemma_nil_times(c, v.im, w.im);
    lemma_nil_times(c, v.re, w.im);
    lemma_nil_times(c, v.im, w.re);
    lemma_nils(c, v.re.mul(c, w.re), v.im.mul(c, w.im));
    lemma_nils(c, v.re.mul(c, w.im), v.im.mul(c, w.re));
    lemma_nils(c, x.re, t.re);
    lemma_nils(c, x.im, t.im);
}

#[verifier::rlimit(40)]
proof fn lemma_stages_blank<K: Fn(Op, Width, u64, u64) -> u64>(c: &Calc<K>, d: Seq<Cpx>, n: nat, inverse: bool)
    requires
        rounds(c),
        crunches_by_numbers(c),
        d.len() == SPECTRAL_N,
        blank(d),
        n <= 10,
    ensures
        stages(c, d, n, inverse).len() == SPECTRAL_N,
        blank(stages(c, d, n, inverse)),
    decreases n,
{
    if n > 0 {
        let t = (n - 1) as nat;
        lemma_stages_blank(c, d, t, inverse);
        let prev = stages(c, d, t, inverse);
        let next = stages(c, d, n, inverse);
        let (h, st) = (pow2(t) as int, pow2((10 - n) as nat) as int);
        lemma2_to64();
        lemma_pow2_unfold(n);
        lemma_pow2_pos(t);
        lemma_pow2_pos((10 - n) as nat);
        assert forall|j: int| 0 <= j < next.len() implies nil((#[trigger] next[j]).re) && nil(next[j].im) by {
            let (b, k) = (j / (2 * h), j % (2 * h));
            lemma_pow2_adds(n, (10 - n) as nat);
            assert(j == b * (2 * h) + k && 0 <= k < 2 * h && 0 <= b < st) by (nonlinear_arith)
                requires
                    b == j / (2 * h),
                    k == j % (2 * h),
                    0 <= j < (2 * h) * st,
                    h > 0,
            ;
            let k1 = if k < h {
                k
            } else {
                k - h
            };
            lemma_place(b, k1, h, st, 1024, 10, n);
            lemma_place(b, k1 + h, h, st, 1024, 10, n);
            let w = twiddle(c, step_factor(c, pow2(n) as u64, inverse), k1);
            assert(numeric(w)) by {
                reveal(crunches_by_numbers);
            }
            let (x, v) = (prev[b * (2 * h) + k1], prev[b * (2 * h) + (k1 + h)]);
            assert(nil(x.re) && nil(v.re));
            lemma_butterfly_nil(c, x, v, w);
        }
    }
}

/// The transform of nothing.
proof fn lemma_transformed_blank<K: Fn(Op, Width, u64, u64) -> u64>(c: &Calc<K>, d: Seq<Cpx>, inverse: bool)
    requires
        rounds(c),
        crunches_by_numbers(c),
        d.len() == SPECTRAL_N,
        blank(d),
    ensures
        transformed(c, d, 10, inverse).len() == SPECTRAL_N,
        blank(transformed(c, d, 10, inverse)),
{
    lemma2_to64();
    let e = reordered(d, 10);
    assert forall|i: int| 0 <= i < e.len() implies nil((#[trigger] e[i]).re) && nil(e[i].im) by {
        lemma_reversed_bound(i, 10);
        assert(nil(d[reversed(i, 10)].re));
    }
    lemma_stages_blank(c, e, 10, inverse);
    if inverse {
        let t = stages(c, e, 10, true);
        lemma_share(c, 10);
        let inv = single(0x3f80_0000).div(c, F32::of_count(c, d.len() as u64));
        let out = transformed(c, d, 10, true);
        assert forall|i: int| 0 <= i < out.len() implies nil((#[trigger] out[i]).re) && nil(out[i].im) by {
            assert(nil(t[i].re) && nil(t[i].im));
            lemma_nil_times(c, t[i].re, inv);
            lemma_nil_times(c, t[i].im, inv);
        }
    }
}

/// A coefficient of nothing has no magnitude, and is dropped.
proof fn lemma_dropped<K: Fn(Op, Width, u64, u64) -> u64>(c: &Calc<K>, s: Seq<Cpx>, q: F32, i: int)
    requires
        rounds(c),
        nil(s[i].re),
        nil(s[i].im),
    ensures
        gain_at(c, s, q, i) == single(0),
{
    let z = s[i];
    lemma_nil_times(c, z.re, z.re);
    lemma_nil_times(c, z.im, z.im);
    lemma_nils(c, z.re.mul(c, z.re), z.im.mul(c, z.im));
    let m = z.re.mul(c, z.re).add(c, z.im.mul(c, z.im));
    let zero = F32 { bits: 0 };
    lemma_nil(m);
    lemma_nil(zero);
    assert(0 * one() == 0 && 0 * 0 == 0);
    lemma_root(c, m, zero);
    law_single_order_is_numeric(single(0x3089_705f), m.sqrt(c));
    law_single_order_is_numeric(single(0x3089_705f), zero);
}

/// A window of silence is crunched to silence.
proof fn lemma_crunched_silent<K: Fn(Op, Width, u64, u64) -> u64>(c: &Calc<K>, x: Seq<F32>, q: F32)
    requires
        rounds(c),
        crunches_by_numbers(c),
        x.len() == SPECTRAL_N,
        silent(x),
    ensures
        crunched(c, x, q).len() == SPECTRAL_N,
        silent(crunched(c, x, q)),
{
    let d = paired(windowed(c, x), Seq::new(SPECTRAL_N as nat, |i: int| single(0)));
    assert forall|i: int| 0 <= i < d.len() implies nil((#[trigger] d[i]).re) && nil(d[i].im) by {
        assert(hann_of(c, i as u64, SPECTRAL_N as u64).finite()) by {
            reveal(crunches_by_numbers);
        }
        assert(nil(x[i]));
        lemma_nil_times(c, x[i], hann_of(c, i as u64, SPECTRAL_N as u64));
    }
    lemma_transformed_blank(c, d, false);
    let s = spectrum(c, x);
    let t = thinned(c, s, q);
    assert forall|j: int| 0 <= j < t.len() implies nil((#[trigger] t[j]).re) && nil(t[j].im) by {
        assert(nil(s[mirrored(j)].re) && nil(s[j].re));
        lemma_dropped(c, s, q, mirrored(j));
        lemma_nil_times(c, s[j].re, single(0));
        lemma_nil_times(c, s[j].im, single(0));
    }
    lemma_transformed_blank(c, t, true);
    let out = transformed(c, t, 10, true);
    assert forall|i: int| 0 <= i < crunched(c, x, q).len() implies nil(#[trigger] crunched(c, x, q)[i]) by {
        assert(nil(out[i].re));
    }
}

proof fn lemma_overlapped_silent<K: Fn(Op, Width, u64, u64) -> u64>(c: &Calc<K>, q: F32, buf: Seq<F32>, acc: Seq<F32>, k: int)
    requires
        rounds(c),
        crunches_by_numbers(c),
        silent(buf),
        silent(acc),
        k <= windows_in(buf.len() as int),
    ensures
        overlapped(c, q, buf, acc, k).len() == acc.len(),
        silent(overlapped(c, q, buf, acc, k)),
    decreases k,
{
    if k > 0 {
        lemma_overlapped_silent(c, q, buf, acc, k - 1);
        let at = (k - 1) * SPECTRAL_HOP;
        let x = buf.subrange(at, at + SPECTRAL_N);
        assert forall|i: int| 0 <= i < x.len() implies nil(#[trigger] x[i]) by {
            assert(nil(buf[at + i]));
        }
        lemma_crunched_silent(c, x, q);
        let (w, sum) = (crunched(c, x, q), overlapped(c, q, buf, acc, k - 1));
        let out = overlapped(c, q, buf, acc, k);
        assert forall|p: int| 0 <= p < out.len() implies nil(#[trigger] out[p]) by {
            assert(nil(sum[p]));
            if at <= p < at + w.len() {
                assert(nil(w[p - at]));
                lemma_nils(c, sum[p], w[p - at]);
            }
        }
    }
}

/// A compressor gives silence for silence.
proof fn lemma_compress_silent<K: Fn(Op, Width, u64, u64) -> u64>(c: &Calc<K>, q: F32, xs: Seq<F32>)
    requires
        rounds(c),
        crunches_by_numbers(c),
        silent(xs),
    ensures
        silent(spectral_block(c, q, fresh_spectral(), xs).1),
{
    let s = fresh_spectral();
    let buf = s.buf + xs;
    let k = windows_in(buf.len() as int);
    let acc = s.acc + zeros(xs.len());
    assert(buf =~= xs);
    lemma_overlapped_silent(c, q, buf, acc, k);
    let sum = overlapped(c, q, buf, acc, k);
    let done = k * SPECTRAL_HOP;
    lemma_windows(buf.len() as int);
    let out = s.out + sum.take(done);
    assert forall|i: int| 0 <= i < out.len() implies nil(#[trigger] out[i]) by {
        if i >= s.out.len() {
            assert(nil(sum[i - s.out.len()]));
        }
    }
    let r = out.take(xs.len() as int);
    assert forall|i: int| 0 <= i < r.len() implies nil(#[trigger] r[i]) by {
        assert(nil(out[i]));
    }
}

spec fn still_state<K: Fn(Op, Width, u64, u64) -> u64>(c: &Calc<K>, fx: AvEffect, s: FxView) -> bool {
    match (fx.kind, s) {
        (EffectKind::Crush { .. }, FxView::Crush { left, right }) => nil(left.hold) && nil(right.hold),
        (EffectKind::Delay { .. }, FxView::Delay { left, right }) => still_line(left) && still_line(right),
        (EffectKind::Reverb { size, damp, .. }, FxView::Reverb { left, right }) => size.finite() && damp.finite() ==> still_tank(
            c,
            left,
        ) && still_tank(c, right),
        (EffectKind::Compress { .. }, FxView::Compress { left, right }) => left == fresh_spectral() && right
            == fresh_spectral(),
        _ => true,
    }
}

proof fn lemma_fresh_state_is_still<K: Fn(Op, Width, u64, u64) -> u64>(c: &Calc<K>, fx: AvEffect, rate: u32)
    requires
        rounds(c),
    ensures
        still_state(c, fx, fresh_state(c, fx.kind, rate)),
{
    match fx.kind {
        EffectKind::Reverb { size, damp, .. } => {
            if size.finite() && damp.finite() {
                lemma_tank_numbers(c, size, damp);
            }
        },
        _ => {},
    }
}

/// What an effect makes of silence.
proof fn lemma_effect_silent<K: Fn(Op, Width, u64, u64) -> u64>(c: &Calc<K>, fx: AvEffect, s: FxView, l: Seq<F32>, r: Seq<F32>)
    requires
        rounds(c),
        steady(c, fx),
        still_state(c, fx, s),
        silent(l),
        silent(r),
    ensures
        silent(effect_block(c, fx, s, l, r).1),
        silent(effect_block(c, fx, s, l, r).2),
{
    if !fx.audio.le(single(BYPASS)) {
        match (fx.kind, s) {
            (EffectKind::Crush { downsample, bits }, FxView::Crush { left, right }) => {
                let (f, v) = (crush_factor(c, downsample, fx.audio), crush_levels(c, bits, fx.audio));
                lemma_crush_silent(c, f, v, left, l);
                lemma_crush_silent(c, f, v, right, r);
            },
            (EffectKind::Delay { feedback, mix, .. }, FxView::Delay { left, right }) => {
                lemma_delay_silent(c, feedback, mix.mul(c, fx.audio), left, l);
                lemma_delay_silent(c, feedback, mix.mul(c, fx.audio), right, r);
            },
            (EffectKind::Reverb { mix, .. }, FxView::Reverb { left, right }) => {
                lemma_tank_silent(c, mix.mul(c, fx.audio), left, l);
                lemma_tank_silent(c, mix.mul(c, fx.audio), right, r);
            },
            (EffectKind::Compress { quality }, FxView::Compress { left, right }) => {
                if compresses(c, fx) {
                    let q = lerp(c, single(0x3f80_0000), quality, fx.audio).limit(single(0), single(0x3f80_0000));
                    lemma_compress_silent(c, q, l);
                    lemma_compress_silent(c, q, r);
                }
            },
            _ => {},
        }
    }
}

proof fn lemma_chain_silent<K: Fn(Op, Width, u64, u64) -> u64>(c: &Calc<K>, chain: Seq<AvEffect>, rate: u32, l: Seq<F32>, r: Seq<F32>, n: int)
    requires
        rounds(c),
        steady_chain(c, chain),
        0 <= n <= chain.len(),
        silent(l),
        silent(r),
    ensures
        ({
            let states = fresh_states(c, chain, rate);
            let out = chain_block(c, chain, states, l, r, n);
            &&& silent(out.1)
            &&& silent(out.2)
            &&& out.0.len() == states.len()
            &&& forall|i: int| n <= i < states.len() ==> out.0[i] == states[i]
        }),
    decreases n,
{
    if n > 0 {
        lemma_chain_silent(c, chain, rate, l, r, n - 1);
        let states = fresh_states(c, chain, rate);
        let (s, a, b) = chain_block(c, chain, states, l, r, n - 1);
        let fx = chain[n - 1];
        assert(states[n - 1] == fresh_state(c, fx.kind, rate));
        assert(s[n - 1] == states[n - 1]);
        lemma_fresh_state_is_still(c, fx, rate);
        assert(steady(c, fx));
        lemma_effect_silent(c, fx, s[n - 1], a, b);
    }
}

/// Silence through a chain of effects stays silence.
pub proof fn law_chains_keep_silence<K: Fn(Op, Width, u64, u64) -> u64>(c: &Calc<K>, chain: Seq<AvEffect>, rate: u32, l: Seq<F32>, r: Seq<F32>)
    requires
        rounds(c),
        steady_chain(c, chain),
        l.len() == r.len(),
        silent(l),
        silent(r),
    ensures
        rendered_chain(c, chain, rate, l, r).0.len() == l.len(),
        rendered_chain(c, chain, rate, l, r).1.len() == r.len(),
        silent(rendered_chain(c, chain, rate, l, r).0),
        silent(rendered_chain(c, chain, rate, l, r).1),
{
    law_rendering_keeps_length(c, chain, rate, l, r);
    let late = compressors(c, chain) * SPECTRAL_N;
    let states = fresh_states(c, chain, rate);
    if late == 0 {
        lemma_chain_silent(c, chain, rate, l, r, chain.len() as int);
    } else {
        let pad = Seq::new((late + SPECTRAL_N) as nat, |i: int| single(0));
        assert(silent(pad));
        let (a, b) = (l + pad, r + pad);
        assert(silent(a) && silent(b));
        lemma_chain_silent(c, chain, rate, a, b, chain.len() as int);
        law_chains_keep_length(c, chain, states, a, b);
        let out = chain_block(c, chain, states, a, b, chain.len() as int);
        let (x, y) = rendered_chain(c, chain, rate, l, r);
        assert forall|i: int| 0 <= i < x.len() implies nil(#[trigger] x[i]) && nil(y[i]) by {
            assert(nil(out.1[late + i]) && nil(out.2[late + i]));
        }
        assert forall|i: int| 0 <= i < y.len() implies nil(#[trigger] y[i]) by {
            assert(nil(x[i]));
        }
    }
}

// -------------------------------------------------------------------- sound

/// Whether an event puts no sample into a window of `len` samples that starts at `t0`.
pub open spec fn misses<K: Fn(Op, Width, u64, u64) -> u64>(c: &Calc<K>, ev: GrainEvent, rate: u32, t0: F64, len: nat) -> bool {
    let start = grain_start(c, ev, F64::of_count(c, rate as u64), t0);
    let n = grain_samples(c, ev, F64::of_count(c, rate as u64));
    start >= len || start + n <= 0
}

/// Whether no event of a plan reaches a window.
pub open spec fn out_of_window<K: Fn(Op, Width, u64, u64) -> u64>(c: &Calc<K>, plan: Seq<PlanView>, rate: u32, t0: F64, len: nat) -> bool {
    forall|i: int, k: int, e: int|
        0 <= i < plan.len() && 0 <= k < plan[i].parts.len() && 0 <= e < plan[i].parts[k].1.len() ==> misses(
            c,
            #[trigger] plan[i].parts[k].1[e],
            rate,
            t0,
            len,
        )
}

proof fn lemma_missed<K: Fn(Op, Width, u64, u64) -> u64>(c: &Calc<K>, samples: Seq<F32>, src_rate: u32, events: Seq<GrainEvent>, buf: Seq<F32>, rate: u32, t0: F64)
    requires
        forall|e: int| 0 <= e < events.len() ==> misses(c, #[trigger] events[e], rate, t0, buf.len()),
    ensures
        left_mixed(c, samples, src_rate, events, buf, rate, t0) == buf,
        right_mixed(c, samples, src_rate, events, buf, rate, t0) == buf,
    decreases events.len(),
{
    if events.len() > 0 {
        assert forall|e: int| 0 <= e < events.drop_last().len() implies misses(
            c,
            #[trigger] events.drop_last()[e],
            rate,
            t0,
            buf.len(),
        ) by {
            assert(misses(c, events[e], rate, t0, buf.len()));
        }
        lemma_missed(c, samples, src_rate, events.drop_last(), buf, rate, t0);
        assert(misses(c, events.last(), rate, t0, buf.len()));
        assert(left_mixed(c, samples, src_rate, events, buf, rate, t0) =~= buf);
        assert(right_mixed(c, samples, src_rate, events, buf, rate, t0) =~= buf);
    }
}

proof fn lemma_parts_missed<K: Fn(Op, Width, u64, u64) -> u64>(c: &Calc<K>, project: Project, clip: Clip, parts: Seq<(usize, Seq<GrainEvent>)>, bus: Stereo, rate: u32, t0: F64, n: int)
    requires
        n <= parts.len(),
        bus.l.len() == bus.r.len(),
        forall|k: int, e: int|
            0 <= k < parts.len() && 0 <= e < parts[k].1.len() ==> misses(
                c,
                #[trigger] parts[k].1[e],
                rate,
                t0,
                bus.l.len(),
            ),
    ensures
        parts_mixed(c, project, clip.audio_filters@, parts, bus, rate, t0, n) == bus,
    decreases n,
{
    if n > 0 {
        lemma_parts_missed(c, project, clip, parts, bus, rate, t0, n - 1);
        match crate::render::clip_sound(c, project, clip.audio_filters@, parts[n - 1].0) {
            Some(s) => {
                lemma_missed(c, s.samples, s.rate, parts[n - 1].1, bus.l, rate, t0);
                lemma_missed(c, s.samples, s.rate, parts[n - 1].1, bus.r, rate, t0);
            },
            None => {},
        }
    }
}

/// Whether a bus is silent.
pub open spec fn silent_bus(b: Stereo) -> bool {
    silent(b.l) && silent(b.r)
}

proof fn lemma_clip_silent<K: Fn(Op, Width, u64, u64) -> u64>(c: &Calc<K>, project: Project, clip: Clip, parts: Seq<(usize, Seq<GrainEvent>)>, bus: Stereo, rate: u32, t0: F64)
    requires
        rounds(c),
        steady_chain(c, clip.effects@),
        bus.l.len() == bus.r.len(),
        silent_bus(bus),
        forall|k: int, e: int|
            0 <= k < parts.len() && 0 <= e < parts[k].1.len() ==> misses(
                c,
                #[trigger] parts[k].1[e],
                rate,
                t0,
                bus.l.len(),
            ),
    ensures
        silent_bus(clip_mixed(c, project, clip, parts, bus, rate, t0)),
        clip_mixed(c, project, clip, parts, bus, rate, t0).has_len(bus.l.len()),
{
    let n = parts.len() as int;
    if clip.effects@.len() == 0 {
        lemma_parts_missed(c, project, clip, parts, bus, rate, t0, n);
    } else {
        let none = Stereo::silent(bus.l.len());
        lemma_parts_missed(c, project, clip, parts, none, rate, t0, n);
        law_chains_keep_silence(c, clip.effects@, rate, none.l, none.r);
        let wet = rendered_chain(c, clip.effects@, rate, none.l, none.r);
        assert forall|i: int| 0 <= i < bus.l.len() implies nil(#[trigger] summed(c, bus.l, wet.0)[i]) && nil(
            summed(c, bus.r, wet.1)[i],
        ) by {
            assert(nil(bus.l[i]) && nil(bus.r[i]) && nil(wet.0[i]) && nil(wet.1[i]));
            lemma_nils(c, bus.l[i], wet.0[i]);
            lemma_nils(c, bus.r[i], wet.1[i]);
        }
        assert forall|i: int| 0 <= i < bus.r.len() implies nil(#[trigger] summed(c, bus.r, wet.1)[i]) by {
            assert(nil(summed(c, bus.l, wet.0)[i]));
        }
    }
}

/// Whether every chain of a project is one that keeps silence.
pub open spec fn steady_project<K: Fn(Op, Width, u64, u64) -> u64>(c: &Calc<K>, project: Project) -> bool {
    &&& steady_chain(c, project.master_effects@)
    &&& forall|ti: int| 0 <= ti < project.tracks@.len() ==> steady_chain(c, (#[trigger] project.tracks@[ti]).effects@)
    &&& forall|ti: int, k: int|
        0 <= ti < project.tracks@.len() && 0 <= k < project.tracks@[ti].clips@.len() ==> steady_chain(
            c,
            (#[trigger] project.tracks@[ti].clips@[k]).effects@,
        )
}

/// Whether the levels of all tracks are numbers throughout a window.
pub open spec fn levels_are_numbers<K: Fn(Op, Width, u64, u64) -> u64>(c: &Calc<K>, project: Project, len: nat, t0: F64) -> bool {
    forall|ti: int, i: int|
        0 <= ti < project.tracks@.len() && 0 <= i < len ==> (#[trigger] project.tracks@[ti].level_on(
            c,
            sample_beat(c, project.bpm, project.sample_rate, t0, i as u64),
        )).finite()
}

proof fn lemma_track_silent<K: Fn(Op, Width, u64, u64) -> u64>(c: &Calc<K>, project: Project, plan: Seq<PlanView>, ti: int, len: nat, t0: F64, n: int)
    requires
        rounds(c),
        steady_project(c, project),
        out_of_window(c, plan, project.sample_rate, t0, len),
        crate::render::plan_fits(project, plan),
        0 <= ti < project.tracks@.len(),
        n <= plan.len(),
    ensures
        silent_bus(track_mixed(c, project, plan, ti, len, t0, n)),
        track_mixed(c, project, plan, ti, len, t0, n).has_len(len),
    decreases n,
{
    if n > 0 {
        lemma_track_silent(c, project, plan, ti, len, t0, n - 1);
        let p = plan[n - 1];
        if p.track == ti {
            let bus = track_mixed(c, project, plan, ti, len, t0, n - 1);
            let clip = project.tracks@[ti].clips@[p.clip];
            assert forall|k: int, e: int| 0 <= k < p.parts.len() && 0 <= e < p.parts[k].1.len() implies misses(
                c,
                #[trigger] p.parts[k].1[e],
                project.sample_rate,
                t0,
                bus.l.len(),
            ) by {
                assert(misses(c, plan[n - 1].parts[k].1[e], project.sample_rate, t0, len));
            }
            lemma_clip_silent(c, project, clip, p.parts, bus, project.sample_rate, t0);
        }
    }
}

proof fn lemma_tracks_silent<K: Fn(Op, Width, u64, u64) -> u64>(c: &Calc<K>, project: Project, plan: Seq<PlanView>, len: nat, t0: F64, n: int)
    requires
        rounds(c),
        steady_project(c, project),
        levels_are_numbers(c, project, len, t0),
        out_of_window(c, plan, project.sample_rate, t0, len),
        crate::render::plan_fits(project, plan),
        n <= project.tracks@.len(),
    ensures
        silent_bus(tracks_mixed(c, project, plan, len, t0, n)),
        tracks_mixed(c, project, plan, len, t0, n).has_len(len),
    decreases n,
{
    if n > 0 {
        lemma_tracks_silent(c, project, plan, len, t0, n - 1);
        let master = tracks_mixed(c, project, plan, len, t0, n - 1);
        let track = project.tracks@[n - 1];
        if !(track.muted || !plays(plan, n - 1)) {
            lemma_track_silent(c, project, plan, n - 1, len, t0, plan.len() as int);
            let dry = track_mixed(c, project, plan, n - 1, len, t0, plan.len() as int);
            assert(steady_chain(c, track.effects@));
            law_chains_keep_silence(c, track.effects@, project.sample_rate, dry.l, dry.r);
            let bus = track_sound(c, project, plan, n - 1, len, t0);
            let (bpm, rate) = (project.bpm, project.sample_rate);
            assert forall|i: int| 0 <= i < len implies nil(
                #[trigger] leveled(c, master.l, bus.l, track, bpm, rate, t0)[i],
            ) && nil(leveled(c, master.r, bus.r, track, bpm, rate, t0)[i]) by {
                let level = project.tracks@[n - 1].level_on(c, sample_beat(c, bpm, rate, t0, i as u64));
                assert(level.finite());
                assert(nil(master.l[i]) && nil(master.r[i]) && nil(bus.l[i]) && nil(bus.r[i]));
                lemma_nil_times(c, bus.l[i], level);
                lemma_nil_times(c, bus.r[i], level);
                lemma_nils(c, master.l[i], bus.l[i].mul(c, level));
                lemma_nils(c, master.r[i], bus.r[i].mul(c, level));
            }
            assert forall|i: int| 0 <= i < len implies nil(
                #[trigger] leveled(c, master.r, bus.r, track, bpm, rate, t0)[i],
            ) by {
                assert(nil(leveled(c, master.l, bus.l, track, bpm, rate, t0)[i]));
            }
        }
    }
}

/// A window that no event reaches is silent, whatever effects the project has.
pub proof fn law_windows_without_events_are_silent<K: Fn(Op, Width, u64, u64) -> u64>(c: &Calc<K>, project: Project, plan: Seq<PlanView>, len: nat, t0: F64)
    requires
        rounds(c),
        forall|z: F32| nil(z) ==> nil(#[trigger] z.tanh(c)),
        steady_project(c, project),
        levels_are_numbers(c, project, len, t0),
        crate::render::plan_fits(project, plan),
        out_of_window(c, plan, project.sample_rate, t0, len),
    ensures
        silent_bus(project_sound(c, project, plan, len, t0)),
        project_sound(c, project, plan, len, t0).has_len(len),
{
    let n = project.tracks@.len() as int;
    lemma_tracks_silent(c, project, plan, len, t0, n);
    let mix = tracks_mixed(c, project, plan, len, t0, n);
    law_chains_keep_silence(c, project.master_effects@, project.sample_rate, mix.l, mix.r);
    let wet = rendered_chain(c, project.master_effects@, project.sample_rate, mix.l, mix.r);
    assert forall|z: F32| nil(z) implies nil(#[trigger] soft_clipped(c, z)) by {
        assert(nil(z.tanh(c)));
        lemma_nil_times(c, z.tanh(c), single(0x3e4c_cccd));
        lemma_nil_times(c, z, single(0x3f4c_cccd));
        lemma_nils(c, z.tanh(c).mul(c, single(0x3e4c_cccd)), z.mul(c, single(0x3f4c_cccd)));
    }
}

} // verus!
