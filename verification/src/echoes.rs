//! What the sound effects do to a sample, with arithmetic that rounds to nearest: how echoes
//! come back and fade, and how a crusher holds and rounds.
use crate::calc::{Calc, Op, Width};
use crate::fx::{lerp, AvEffect, BYPASS};
use crate::fx_audio::{
    comb_sum, combed, crushed, delay_step, echo_length, effect_block, fresh_line, pass_chain, passed, tank_damp, tank_feedback,
    tank_step, CombView, CrushState, FxView, LineView, TankView,
};
use crate::num::{single, F32};
use crate::reals::{
    about, amount, kept_within, lemma_about_kept, lemma_about_less, lemma_about_plus, lemma_about_times, lemma_compared, lemma_constant,
    lemma_constants, lemma_counted, lemma_exactly, lemma_minus, lemma_order, lemma_over_within, lemma_quotient, lemma_times_within, size,
};
use crate::rounding::{one, rounds};
use crate::spread::lemma_single_counts;
use crate::stream::run;
use vstd::arithmetic::power2::{lemma2_to64, lemma_pow2_pos, pow2};
use vstd::prelude::*;

verus! {

/// Whether a single is a sample of an ordinary size: up to 1024.
pub open spec fn moderate(x: F32) -> bool {
    x.finite() && size(amount(x)) <= 1024real
}

/// Whether a single is a share: from -1 to 1.
pub open spec fn share(x: F32) -> bool {
    x.finite() && size(amount(x)) <= 1real
}

/// A sample and a share of another.
proof fn lemma_with_share<K: Fn(Op, Width, u64, u64) -> u64>(c: &Calc<K>, x: F32, w: F32, k: F32)
    requires
        rounds(c),
        moderate(x),
        moderate(w),
        share(k),
    ensures
        about(x.add(c, w.mul(c, k)), amount(x) + amount(w) * amount(k), 1real / 0x400real),
        amount(w) == 0real ==> amount(x.add(c, w.mul(c, k))) == amount(x),
{
    let u = 1real / 0x40_0000real;
    lemma_about_times(c, w, amount(w), 0real, 1024real, k, amount(k), 0real, 1real, 1025real * u);
    let p = w.mul(c, k);
    lemma_about_plus(c, x, amount(x), 0real, p, amount(w) * amount(k), 1025real * u, 2048real, 3100real * u);
    if amount(w) == 0real {
        lemma_constants();
        let (a, b) = (amount(w), amount(k));
        assert(a * b == 0real) by (nonlinear_arith)
            requires
                a == 0real,
        ;
        lemma_exactly(c, w, k, single(0));
        lemma_exactly(c, x, p, x);
    }
}

/// An echo gives the sample and, as loud as the mix says, what comes back from its line. Into
/// the line goes the sample and, as loud as the feedback says, what came back. The rest of the
/// line waits, and the next place is the one behind, going round at the end.
pub proof fn law_echoes_come_back<K: Fn(Op, Width, u64, u64) -> u64>(c: &Calc<K>, feedback: F32, mix: F32, s: LineView, x: F32)
    requires
        rounds(c),
        0 <= s.pos < s.ring.len(),
        moderate(x),
        moderate(s.ring[s.pos]),
        share(feedback),
        share(mix),
    ensures
        ({
            let (t, y) = delay_step(c, feedback, mix)(s, x);
            let wet = amount(s.ring[s.pos]);
            &&& about(y, amount(x) + wet * amount(mix), 1real / 0x400real)
            &&& about(t.ring[s.pos], amount(x) + wet * amount(feedback), 1real / 0x400real)
            &&& t.ring.len() == s.ring.len()
            &&& forall|i: int| 0 <= i < s.ring.len() && i != s.pos ==> t.ring[i] == s.ring[i]
            &&& t.pos == if s.pos + 1 == s.ring.len() {
                0
            } else {
                s.pos + 1
            }
            &&& wet == 0real ==> amount(y) == amount(x) && amount(t.ring[s.pos]) == amount(x)
        }),
{
    let wet = s.ring[s.pos];
    lemma_with_share(c, x, wet, mix);
    lemma_with_share(c, x, wet, feedback);
    lemma_next(s.pos, s.ring.len() as int);
}

proof fn lemma_next(pos: int, n: int)
    requires
        0 <= pos < n,
    ensures
        (pos + 1) % n == if pos + 1 == n {
            0
        } else {
            pos + 1
        },
{
    if pos + 1 == n {
        assert((pos + 1) % n == 0) by (nonlinear_arith)
            requires
                pos + 1 == n,
                n > 0,
        ;
    } else {
        assert((pos + 1) % n == pos + 1) by (nonlinear_arith)
            requires
                0 <= pos + 1 < n,
        ;
    }
}

/// A fresh echo after as many samples as its line is long at most: what went in is in the line,
/// and has come out unchanged.
proof fn lemma_first_lap<K: Fn(Op, Width, u64, u64) -> u64>(c: &Calc<K>, feedback: F32, mix: F32, n: nat, xs: Seq<F32>)
    requires
        rounds(c),
        share(feedback),
        share(mix),
        0 < n,
        xs.len() <= n,
        forall|i: int| 0 <= i < xs.len() ==> moderate(#[trigger] xs[i]),
    ensures
        ({
            let (t, ys) = run(delay_step(c, feedback, mix), fresh_line(n), xs);
            &&& ys.len() == xs.len()
            &&& t.ring.len() == n
            &&& t.pos == if xs.len() == n {
                0
            } else {
                xs.len() as int
            }
            &&& forall|i: int| 0 <= i < xs.len() ==> (#[trigger] t.ring[i]).finite() && amount(t.ring[i]) == amount(xs[i])
            &&& forall|i: int| xs.len() <= i < n ==> #[trigger] t.ring[i] == single(0)
            &&& forall|i: int| 0 <= i < xs.len() ==> (#[trigger] ys[i]).finite() && amount(ys[i]) == amount(xs[i])
        }),
    decreases xs.len(),
{
    if xs.len() > 0 {
        let before = xs.drop_last();
        assert forall|i: int| 0 <= i < before.len() implies moderate(#[trigger] before[i]) by {
            assert(before[i] == xs[i]);
        }
        lemma_first_lap(c, feedback, mix, n, before);
        let (s, ys) = run(delay_step(c, feedback, mix), fresh_line(n), before);
        lemma_constants();
        assert(moderate(xs.last())) by {
            assert(xs.last() == xs[xs.len() - 1]);
        }
        law_echoes_come_back(c, feedback, mix, s, xs.last());
    }
}

/// Nothing comes back before an echo's time is up: until then what goes in comes out.
pub proof fn law_no_echo_before_its_time<K: Fn(Op, Width, u64, u64) -> u64>(c: &Calc<K>, feedback: F32, mix: F32, n: nat, xs: Seq<F32>, i: int)
    requires
        rounds(c),
        share(feedback),
        share(mix),
        0 < n,
        xs.len() <= n,
        forall|k: int| 0 <= k < xs.len() ==> moderate(#[trigger] xs[k]),
        0 <= i < xs.len(),
    ensures
        amount(run(delay_step(c, feedback, mix), fresh_line(n), xs).1[i]) == amount(xs[i]),
{
    lemma_first_lap(c, feedback, mix, n, xs);
}

/// When its time is up, the first sample comes back, as loud as the mix says.
pub proof fn law_the_first_echo<K: Fn(Op, Width, u64, u64) -> u64>(c: &Calc<K>, feedback: F32, mix: F32, n: nat, xs: Seq<F32>, x: F32)
    requires
        rounds(c),
        share(feedback),
        share(mix),
        0 < n,
        xs.len() == n,
        forall|k: int| 0 <= k < xs.len() ==> moderate(#[trigger] xs[k]),
        moderate(x),
    ensures
        about(
            run(delay_step(c, feedback, mix), fresh_line(n), xs.push(x)).1[n as int],
            amount(x) + amount(xs[0]) * amount(mix),
            1real / 0x400real,
        ),
{
    lemma_first_lap(c, feedback, mix, n, xs);
    let all = xs.push(x);
    assert(all.drop_last() =~= xs);
    assert(all.last() == x);
    let (s, ys) = run(delay_step(c, feedback, mix), fresh_line(n), xs);
    assert(moderate(xs[0]));
    assert(s.ring[0].finite() && amount(s.ring[0]) == amount(xs[0]));
    law_echoes_come_back(c, feedback, mix, s, x);
}

/// An echo's line is as long as its time, in whole samples, and at least one.
pub proof fn law_echo_times<K: Fn(Op, Width, u64, u64) -> u64>(c: &Calc<K>, time: F32, sample_rate: u32)
    requires
        rounds(c),
        time.finite() && 0real <= amount(time) <= 64real,
        sample_rate <= 0x10_0000,
    ensures
        ({
            let n = echo_length(c, time, sample_rate) as real;
            let want = amount(time) * (sample_rate as real);
            &&& n >= 1real
            &&& n > 1real ==> want - 1real - 32real <= n <= want + 32real
            &&& want >= 64real ==> n > 1real
        }),
{
    lemma_single_counts(c, sample_rate as u64);
    let r = F32::of_count(c, sample_rate as u64);
    let (t, k) = (amount(time), sample_rate as real);
    lemma_about_times(c, time, t, 0real, 64real, r, k, 0real, 0x10_0000real, 17real);
    let p = time.mul(c, r);
    lemma_product_not_negative(c, time, r);
    lemma_floor_size(c, p);
}

/// A product of singles that are not below zero is not below it.
pub(crate) proof fn lemma_product_not_negative<K: Fn(Op, Width, u64, u64) -> u64>(c: &Calc<K>, a: F32, b: F32)
    requires
        rounds(c),
        a.finite(),
        b.finite(),
        amount(a) >= 0real,
        amount(b) >= 0real,
        a.mul(c, b).finite(),
    ensures
        amount(a.mul(c, b)) >= 0real,
{
    let zero = F32 { bits: 0 };
    lemma_order(zero, a);
    lemma_order(zero, b);
    lemma_order(zero, a.mul(c, b));
    let n = a.value() * b.value();
    lemma_pow2_pos(149);
    assert(n >= 0 && zero.value() * one() == 0) by (nonlinear_arith)
        requires
            n == a.value() * b.value(),
            a.value() >= 0,
            b.value() >= 0,
            zero.value() == 0,
    ;
    crate::rounding::lemma_product(c, a, b);
    if crate::rounding::reached(n, one()) {
        crate::rounding::lemma_at_least(a.mul(c, b), n, one(), zero);
    }
}

/// The whole part of a single that is not negative.
pub(crate) proof fn lemma_floor_size<K: Fn(Op, Width, u64, u64) -> u64>(c: &Calc<K>, p: F32)
    requires
        rounds(c),
        p.finite(),
        0real <= amount(p) <= 0x7fff_0000real,
    ensures
        (p.to_size(c) as real) <= amount(p) < (p.to_size(c) as real) + 1real,
        p.to_int(c) == p.to_size(c),
{
    lemma_pow2_pos(149);
    let (u, uu, v, x) = (one(), one() as real, p.value(), amount(p));
    lemma_order(F32 { bits: 0 }, p);
    lemma_quotient(v as real, uu);
    let (k, m) = (v / u, v % u);
    assert(v == k * u + m && 0 <= m < u && k >= 0) by (nonlinear_arith)
        requires
            k == v / u,
            m == v % u,
            u > 0,
            v >= 0,
    ;
    lemma_counted(k, u);
    let (kk, mm) = (k as real, m as real);
    assert(kk <= x < kk + 1real) by (nonlinear_arith)
        requires
            x * uu == kk * uu + mm,
            0real <= mm < uu,
            uu > 0real,
    ;
    assert(k <= 0x7fff_0000);
    reveal(rounds);
    assert(p.to_int(c) == k);
}

// --------------------------------------------------------------------- reverb

/// A comb filter gives back what is in its line. What it puts there is the sample and, as loud
/// as its feedback, what came out, dulled: of that it keeps the damped part from before.
pub proof fn law_combs_feed_back<K: Fn(Op, Width, u64, u64) -> u64>(c: &Calc<K>, s: CombView, x: F32)
    requires
        rounds(c),
        0 <= s.line.pos < s.line.ring.len(),
        moderate(x),
        moderate(s.line.ring[s.line.pos]),
        moderate(s.store),
        s.damp.finite() && 0real <= amount(s.damp) <= 1real,
        share(s.feedback),
    ensures
        ({
            let t = combed(c, s, x);
            let out = amount(s.line.ring[s.line.pos]);
            let dull = out * (1real - amount(s.damp)) + amount(s.store) * amount(s.damp);
            &&& about(t.store, dull, 1real / 0x200real)
            &&& about(t.line.ring[s.line.pos], amount(x) + dull * amount(s.feedback), 1real / 0x80real)
            &&& forall|i: int| 0 <= i < s.line.ring.len() && i != s.line.pos ==> t.line.ring[i] == s.line.ring[i]
            &&& t.line.ring.len() == s.line.ring.len()
            &&& t.line.pos == if s.line.pos + 1 == s.line.ring.len() {
                0
            } else {
                s.line.pos + 1
            }
            &&& t.feedback == s.feedback && t.damp == s.damp
        }),
{
    let u = 1real / 0x40_0000real;
    lemma_constants();
    let unity = single(0x3f80_0000);
    let (out, d) = (s.line.ring[s.line.pos], s.damp);
    let (o, dd, st, f) = (amount(out), amount(d), amount(s.store), amount(s.feedback));
    lemma_about_less(c, unity, 1real, 0real, d, dd, 0real, 1real, 2real * u);
    let rest = unity.sub(c, d);
    lemma_about_times(c, out, o, 0real, 1024real, rest, 1real - dd, 2real * u, 1real, 3100real * u);
    lemma_about_times(c, s.store, st, 0real, 1024real, d, dd, 0real, 1real, 1025real * u);
    let (p, q) = (out.mul(c, rest), s.store.mul(c, d));
    let dull = o * (1real - dd) + st * dd;
    lemma_about_plus(c, p, o * (1real - dd), 3100real * u, q, st * dd, 1025real * u, 2048real, 6200real * u);
    let store = p.add(c, q);
    lemma_about_times(c, store, dull, 6200real * u, 2048real, s.feedback, f, 0real, 1real, 8300real * u);
    lemma_about_plus(c, x, amount(x), 0real, store.mul(c, s.feedback), dull * f, 8300real * u, 3072real, 11500real * u);
    lemma_next(s.line.pos, s.line.ring.len() as int);
}

/// An all-pass filter gives what is in its line less the sample, and puts there the sample and
/// half of what was there.
pub proof fn law_all_passes<K: Fn(Op, Width, u64, u64) -> u64>(c: &Calc<K>, aps: Seq<LineView>, k: int, x: F32)
    requires
        rounds(c),
        0 <= k < aps.len(),
        0 <= aps[k].pos < aps[k].ring.len(),
        moderate(pass_chain(c, aps, x, k)),
        moderate(aps[k].ring[aps[k].pos]),
    ensures
        ({
            let (s, y) = (aps[k], amount(pass_chain(c, aps, x, k)));
            let held = amount(s.ring[s.pos]);
            let t = passed(c, s, pass_chain(c, aps, x, k));
            &&& about(pass_chain(c, aps, x, k + 1), held - y, 1real / 0x400real)
            &&& about(t.ring[s.pos], y + held / 2real, 1real / 0x400real)
            &&& t.ring.len() == s.ring.len()
            &&& forall|i: int| 0 <= i < s.ring.len() && i != s.pos ==> t.ring[i] == s.ring[i]
            &&& t.pos == if s.pos + 1 == s.ring.len() {
                0
            } else {
                s.pos + 1
            }
        }),
        pass_chain(c, aps, x, 0) == x,
{
    let u = 1real / 0x40_0000real;
    lemma_constants();
    let (s, y) = (aps[k], pass_chain(c, aps, x, k));
    let b = s.ring[s.pos];
    lemma_minus(y);
    lemma_about_plus(c, y.minus(), -amount(y), 0real, b, amount(b), 0real, 2048real, 2049real * u);
    lemma_with_share(c, y, b, single(0x3f00_0000));
    lemma_next(s.pos, s.ring.len() as int);
}

/// A reverb gives the sample and, as loud as the mix says, what its filters make of what comes
/// out of its combs together; every comb is fed a quarter of the sample.
pub proof fn law_reverbs_add_their_tail<K: Fn(Op, Width, u64, u64) -> u64>(c: &Calc<K>, mix: F32, s: TankView, x: F32, k: int)
    requires
        rounds(c),
        moderate(x),
        share(mix),
        ({
            let wet = comb_sum(c, s.combs, s.combs.len() as int);
            moderate(pass_chain(c, s.aps, wet, s.aps.len() as int))
        }),
    ensures
        ({
            let (t, y) = tank_step(c, mix)(s, x);
            let wet = comb_sum(c, s.combs, s.combs.len() as int);
            let tail = amount(pass_chain(c, s.aps, wet, s.aps.len() as int));
            &&& about(y, amount(x) + tail * amount(mix), 1real / 0x400real)
            &&& t.combs.len() == s.combs.len() && t.aps.len() == s.aps.len()
            &&& 0 <= k < s.combs.len() ==> t.combs[k] == combed(c, s.combs[k], x.mul(c, single(0x3e80_0000)))
            &&& about(x.mul(c, single(0x3e80_0000)), amount(x) / 4real, 1real / 0x800real)
            &&& 0 <= k < s.aps.len() ==> t.aps[k] == passed(c, s.aps[k], pass_chain(c, s.aps, wet, k))
        }),
{
    let u = 1real / 0x40_0000real;
    lemma2_to64();
    let wet = comb_sum(c, s.combs, s.combs.len() as int);
    lemma_with_share(c, x, pass_chain(c, s.aps, wet, s.aps.len() as int), mix);
    let quarter = single(0x3e80_0000);
    lemma_constant(0x3e80_0000, 0x80_0000, 125);
    assert(pow2(25) as real == 0x200_0000real);
    assert(amount(quarter) * 0x200_0000real == 0x80_0000real);
    lemma_about_times(c, x, amount(x), 0real, 1024real, quarter, 1real / 4real, 0real, 1real, 1025real * u);
}

/// The combs of a reverb are added up.
pub proof fn law_combs_add_up<K: Fn(Op, Width, u64, u64) -> u64>(c: &Calc<K>, combs: Seq<CombView>, n: int)
    requires
        rounds(c),
        0 <= n < combs.len(),
        moderate(comb_sum(c, combs, n)),
        moderate(combs[n].line.ring[combs[n].line.pos]),
    ensures
        about(
            comb_sum(c, combs, n + 1),
            amount(comb_sum(c, combs, n)) + amount(combs[n].line.ring[combs[n].line.pos]),
            1real / 0x400real,
        ),
        comb_sum(c, combs, 0) == single(0),
{
    let (a, b) = (comb_sum(c, combs, n), combs[n].line.ring[combs[n].line.pos]);
    lemma_about_plus(c, a, amount(a), 0real, b, amount(b), 0real, 2048real, 1real / 0x400real);
}

/// Larger rooms ring longer, up to a feedback just below one, and damping takes off up to four
/// fifths.
pub proof fn law_rooms<K: Fn(Op, Width, u64, u64) -> u64>(c: &Calc<K>, room: F32, damp: F32)
    requires
        rounds(c),
        room.finite(),
        damp.finite(),
    ensures
        about(
            tank_feedback(c, room),
            7real / 10real + 28real / 100real * kept_within(amount(room), 0real, 1real),
            1real / 0x8_0000real,
        ),
        about(tank_damp(c, damp), 4real / 5real * kept_within(amount(damp), 0real, 1real), 1real / 0x8_0000real),
{
    let u = 1real / 0x40_0000real;
    lemma_constants();
    lemma2_to64();
    let (zero, unity) = (single(0), single(0x3f80_0000));
    let (base, part, most) = (single(0x3f33_3333), single(0x3e8f_5c29), single(0x3f4c_cccd));
    lemma_constant(0x3f33_3333, 0xb3_3333, 126);
    lemma_constant(0x3e8f_5c29, 0x8f_5c29, 125);
    lemma_constant(0x3f4c_cccd, 0xcc_cccd, 126);
    assert(pow2(24) as real == 0x100_0000real);
    assert(pow2(25) as real == 0x200_0000real);
    assert(amount(base) * 0x100_0000real == 0xb3_3333real);
    assert(amount(part) * 0x200_0000real == 0x8f_5c29real);
    assert(amount(most) * 0x100_0000real == 0xcc_cccdreal);
    lemma_about_itself_kept(room);
    lemma_about_itself_kept(damp);
    let (r, d) = (room.clamped(zero, unity), damp.clamped(zero, unity));
    let (rr, dd) = (kept_within(amount(room), 0real, 1real), kept_within(amount(damp), 0real, 1real));
    assert(about(base, 7real / 10real, u / 8real));
    assert(about(part, 28real / 100real, u / 8real));
    assert(about(most, 4real / 5real, u / 8real));
    lemma_about_times(c, part, 28real / 100real, u / 8real, 1real, r, rr, 0real, 1real, 3real * u);
    lemma_about_plus(c, base, 7real / 10real, u / 8real, part.mul(c, r), 28real / 100real * rr, 3real * u, 1real, 6real * u);
    lemma_about_times(c, d, dd, 0real, 1real, most, 4real / 5real, u / 8real, 1real, 3real * u);
    assert(dd * (4real / 5real) == 4real / 5real * dd) by (nonlinear_arith);
}

proof fn lemma_about_itself_kept(x: F32)
    requires
        x.finite(),
    ensures
        about(x.clamped(single(0), single(0x3f80_0000)), kept_within(amount(x), 0real, 1real), 0real),
{
    lemma_constants();
    lemma_about_kept(x, amount(x), 0real, single(0), single(0x3f80_0000));
}

// ----------------------------------------------------------- the dial, crushing

/// An amount goes evenly from the one end to the other.
pub proof fn law_amounts_go_evenly<K: Fn(Op, Width, u64, u64) -> u64>(c: &Calc<K>, a: F32, b: F32, t: F32)
    requires
        rounds(c),
        moderate(a),
        moderate(b),
        share(t),
    ensures
        about(lerp(c, a, b, t), amount(a) + (amount(b) - amount(a)) * amount(t), 1real / 0x100real),
{
    let u = 1real / 0x40_0000real;
    lemma_about_less(c, b, amount(b), 0real, a, amount(a), 0real, 2048real, 2049real * u);
    let d = b.sub(c, a);
    let r = amount(b) - amount(a);
    lemma_about_times(c, d, r, 2049real * u, 2048real, t, amount(t), 0real, 1real, 4200real * u);
    lemma_about_plus(c, a, amount(a), 0real, d.mul(c, t), r * amount(t), 4200real * u, 3072real, 7400real * u);
}

/// The sound of an echo or a reverb is as far turned up as its mix and its dial together.
pub proof fn law_dials_turn_effects_up<K: Fn(Op, Width, u64, u64) -> u64>(c: &Calc<K>, fx: AvEffect, s: FxView, x: F32, y: F32)
    requires
        rounds(c),
        !fx.audio.le(single(BYPASS)),
        share(fx.audio),
        moderate(x) && moderate(y),
        fx.kind is Delay && s is Delay,
        share(fx.kind->Delay_mix) && share(fx.kind->Delay_feedback),
        0 <= s->Delay_left.pos < s->Delay_left.ring.len(),
        0 <= s->Delay_right.pos < s->Delay_right.ring.len(),
        moderate(s->Delay_left.ring[s->Delay_left.pos]),
        moderate(s->Delay_right.ring[s->Delay_right.pos]),
    ensures
        ({
            let out = effect_block(c, fx, s, seq![x], seq![y]);
            let (left, right) = (s->Delay_left, s->Delay_right);
            let k = amount(fx.kind->Delay_mix) * amount(fx.audio);
            &&& out.1.len() == 1 && out.2.len() == 1
            &&& about(out.1[0], amount(x) + amount(left.ring[left.pos]) * k, 1real / 0x200real)
            &&& about(out.2[0], amount(y) + amount(right.ring[right.pos]) * k, 1real / 0x200real)
        }),
{
    let u = 1real / 0x40_0000real;
    let (feedback, mix) = (fx.kind->Delay_feedback, fx.kind->Delay_mix);
    let k = amount(mix) * amount(fx.audio);
    lemma_about_times(c, mix, amount(mix), 0real, 1real, fx.audio, amount(fx.audio), 0real, 1real, 2real * u);
    let m = mix.mul(c, fx.audio);
    let (left, right) = (s->Delay_left, s->Delay_right);
    let step = delay_step(c, feedback, m);
    lemma_run_one(step, left, x);
    lemma_run_one(step, right, y);
    let (w, v) = (left.ring[left.pos], right.ring[right.pos]);
    lemma_about_times(c, w, amount(w), 0real, 1024real, m, k, 2real * u, 1real, 3080real * u);
    lemma_about_times(c, v, amount(v), 0real, 1024real, m, k, 2real * u, 1real, 3080real * u);
    lemma_about_plus(c, x, amount(x), 0real, w.mul(c, m), amount(w) * k, 3080real * u, 2048real, 5200real * u);
    lemma_about_plus(c, y, amount(y), 0real, v.mul(c, m), amount(v) * k, 3080real * u, 2048real, 5200real * u);
}

/// One sample is one step.
pub(crate) proof fn lemma_run_one<S>(step: spec_fn(S, F32) -> (S, F32), s: S, x: F32)
    ensures
        run(step, s, seq![x]) == (step(s, x).0, seq![step(s, x).1]),
{
    let xs = seq![x];
    assert(xs.drop_last() =~= Seq::<F32>::empty());
    assert(xs.last() == x);
    reveal_with_fuel(run, 2);
    assert(Seq::<F32>::empty().push(step(s, x).1) =~= seq![step(s, x).1]);
}

/// Whether an arithmetic rounds singles to a whole number no further than one half away.
pub open spec fn rounds_singles_to_whole<K: Fn(Op, Width, u64, u64) -> u64>(c: &Calc<K>) -> bool {
    forall|a: F32|
        a.finite() && size(amount(a)) <= 0x40_0000real ==> (#[trigger] a.round(c)).finite() && size(
            amount(a.round(c)) - amount(a),
        ) <= 1real / 2real && a.round(c).value() % one() == 0
}

/// A crusher takes a new value when it has held one for as many samples as its factor says, and
/// holds it otherwise. A new value is the sample, moved to the nearest of its levels: a whole
/// number of steps, `k` of them.
pub proof fn law_crushers_hold_and_round<K: Fn(Op, Width, u64, u64) -> u64>(c: &Calc<K>, factor: F32, levels: F32, s: CrushState, x: F32) -> (k: int)
    requires
        rounds(c),
        rounds_singles_to_whole(c),
        x.finite() && size(amount(x)) <= 16real,
        levels.finite() && 1real <= amount(levels) <= 0x1_0000real,
        factor.finite() && 1real <= amount(factor) <= 1024real,
        s.phase.finite() && 0real <= amount(s.phase) <= 1024real,
    ensures
        ({
            let t = crushed(c, factor, levels, s, x);
            let due = amount(s.phase) + 1real;
            &&& due < amount(factor) - 1real / 0x400real ==> t.hold == s.hold && about(t.phase, due, 1real / 0x400real)
            &&& due > amount(factor) + 1real / 0x400real ==> {
                &&& t.hold.finite()
                &&& size(amount(t.hold) - amount(x)) <= 1real / 2real / amount(levels) + 1real / 0x1_0000real
                &&& size(amount(t.hold) * amount(levels) - k as real) <= amount(levels) / 0x1_0000real
                &&& about(t.phase, due - amount(factor), 1real / 0x200real)
            }
        }),
{
    let u = 1real / 0x40_0000real;
    lemma_constants();
    let unity = single(0x3f80_0000);
    lemma_about_plus(c, s.phase, amount(s.phase), 0real, unity, 1real, 0real, 1025real, 1027real * u);
    let p = s.phase.add(c, unity);
    lemma_compared(factor, p);
    let due = amount(s.phase) + 1real;
    lemma_about_less(c, p, due, 1027real * u, factor, amount(factor), 0real, 1025real, 2100real * u);
    lemma_level(c, x, levels)
}

/// A sample at the nearest of its levels.
proof fn lemma_level<K: Fn(Op, Width, u64, u64) -> u64>(c: &Calc<K>, x: F32, levels: F32) -> (k: int)
    requires
        rounds(c),
        rounds_singles_to_whole(c),
        x.finite() && size(amount(x)) <= 16real,
        levels.finite() && 1real <= amount(levels) <= 0x1_0000real,
    ensures
        ({
            let h = x.mul(c, levels).round(c).div(c, levels);
            &&& h.finite()
            &&& size(amount(h) - amount(x)) <= 1real / 2real / amount(levels) + 1real / 0x1_0000real
            &&& size(amount(h) * amount(levels) - k as real) <= amount(levels) / 0x1_0000real
        }),
{
    let (v, n) = (amount(x), amount(levels));
    assert(-(16real * n) <= v * n <= 16real * n) by (nonlinear_arith)
        requires
            -16real <= v <= 16real,
            n >= 1real,
    ;
    lemma_times_within(c, x, levels, 16real * n);
    let q = x.mul(c, levels);
    let w = q.round(c);
    let (qq, ww) = (amount(q), amount(w));
    lemma_pow2_pos(149);
    let k = w.value() / one();
    assert(w.value() == k * one()) by (nonlinear_arith)
        requires
            k == w.value() / one(),
            w.value() % one() == 0,
            one() > 0,
    ;
    lemma_counted(k, one());
    let uu = one() as real;
    lemma_quotient(w.value() as real, uu);
    assert(ww == k as real) by (nonlinear_arith)
        requires
            ww * uu == (k as real) * uu,
            uu > 0real,
    ;
    lemma_quotient(ww, n);
    let r = ww / n;
    assert(-18real <= r <= 18real) by (nonlinear_arith)
        requires
            r * n == ww,
            -(17real * n) <= ww <= 17real * n,
            n >= 1real,
    ;
    lemma_over_within(c, w, levels, 18real);
    let h = amount(w.div(c, levels));
    let e = h - r;
    assert(h * n - ww == e * n) by (nonlinear_arith)
        requires
            e == h - r,
            r * n == ww,
    ;
    assert(size(e * n) <= n / 0x1_0000real) by (nonlinear_arith)
        requires
            -19real <= 0x40_0000real * e <= 19real,
            n >= 1real,
    ;
    let g = 1real / 2real / n;
    lemma_quotient(1real / 2real, n);
    assert(-(g + 17real / 0x40_0000real) <= r - v <= g + 17real / 0x40_0000real) by (nonlinear_arith)
        requires
            r * n == ww,
            g * n == 1real / 2real,
            -(17real * n) <= 0x40_0000real * (qq - v * n) <= 17real * n,
            -1real / 2real <= ww - qq <= 1real / 2real,
            n >= 1real,
    ;
    k
}

} // verus!
