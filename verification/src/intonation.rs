//! Pitches that come back from frequencies and ratios: laws of arithmetic that rounds to
//! nearest and whose logarithms undo its powers.
use crate::calc::{Calc, Op, Width};
use crate::music::{
    effective, hz_to_midi, midi_to_hz, pitched, ratio_to_semitones, semitones_to_ratio, Key,
};
use crate::num::{law_single_order_is_numeric, single, single_value, F32};
use crate::rounding::{
    apart, grid, lemma_add, lemma_div, lemma_error, lemma_exact, lemma_grid, lemma_mul, lemma_reached,
    lemma_sub, lemma_whole, nearest, one, reached,
    rounds,
};
use crate::tuning::{
    law_ratios_land_on_the_key, lemma_nearest_is_near, lemma_pulled, lemma_twelve, lemma_undetuned,
    lemma_unit, nearest_in_key, powers_start_at_one, pulled_semitones,
};
use vstd::arithmetic::power2::{lemma2_to64, lemma_pow2_adds, lemma_pow2_pos, lemma_pow2_unfold, pow2};
use vstd::prelude::*;

verus! {

/// Whether `x` is within a 2^19th part of `p`.
pub open spec fn close_to(x: F32, p: F32) -> bool {
    x.finite() && 0x8_0000 * apart(x.value(), p.value()) <= p.value()
}

/// Whether logarithms undo powers: for exponents from -16 to 16, the power of two is a
/// number from 2^-17 to 2^17, and the logarithm of what is close to it is within 2^-17 of
/// the exponent.
#[verifier::opaque]
pub open spec fn logs_undo_powers<K: Fn(Op, Width, u64, u64) -> u64>(c: &Calc<K>) -> bool {
    &&& forall|y: F32|
        y.finite() && apart(y.value(), 0) <= 16 * one() ==> {
            let p = #[trigger] single(0x4000_0000).pow(c, y);
            p.finite() && one() <= 0x2_0000 * p.value() && p.value() <= 0x2_0000 * one()
        }
    &&& forall|y: F32, x: F32|
        y.finite() && apart(y.value(), 0) <= 16 * one() && #[trigger] close_to(
            x,
            single(0x4000_0000).pow(c, y),
        ) ==> x.log2(c).finite() && 0x2_0000 * apart(x.log2(c).value(), y.value()) <= one()
}

proof fn lemma_power<K: Fn(Op, Width, u64, u64) -> u64>(c: &Calc<K>, y: F32)
    requires
        logs_undo_powers(c),
        y.finite(),
        apart(y.value(), 0) <= 16 * one(),
    ensures
        ({
            let p = single(0x4000_0000).pow(c, y);
            p.finite() && one() <= 0x2_0000 * p.value() && p.value() <= 0x2_0000 * one()
        }),
{
    reveal(logs_undo_powers);
}

proof fn lemma_undone<K: Fn(Op, Width, u64, u64) -> u64>(c: &Calc<K>, y: F32, x: F32)
    requires
        logs_undo_powers(c),
        y.finite(),
        apart(y.value(), 0) <= 16 * one(),
        close_to(x, single(0x4000_0000).pow(c, y)),
    ensures
        x.log2(c).finite(),
        0x2_0000 * apart(x.log2(c).value(), y.value()) <= one(),
{
    reveal(logs_undo_powers);
}

/// Rounding a number that is not tiny changes it by less than a 2^22nd part.
proof fn lemma_relative(x: F32, n: int, d: int, e: int)
    requires
        nearest(x, n, d),
        d > 0,
        24 <= e < 255,
        0x2000_0000_0000 * d <= n < 0x80_0000 * (pow2((e - 1) as nat) * d),
    ensures
        0x40_0000 * apart(x.value() * d, n) <= n,
    decreases e,
{
    let h = pow2((e - 1) as nat) * d;
    if 0x40_0000 * h <= n {
        lemma_error(x, n, d, e);
    } else {
        let g = pow2((e - 2) as nat) * d;
        lemma_pow2_unfold((e - 1) as nat);
        assert(h == 2 * g) by (nonlinear_arith)
            requires
                h == pow2((e - 1) as nat) * d,
                g == pow2((e - 2) as nat) * d,
                pow2((e - 1) as nat) == 2 * pow2((e - 2) as nat),
        ;
        if e == 24 {
            lemma2_to64();
            assert(h == 0x80_0000 * d);
            assert(false);
        }
        lemma_relative(x, n, d, e - 1);
    }
}

proof fn lemma_anchors()
    ensures
        single(0x43dc_0000).finite(),
        single(0x43dc_0000).value() == 440 * one(),
        single(0x428a_0000).finite(),
        single(0x428a_0000).value() == 69 * one(),
        single(0x3586_37bd).finite(),
        0x4_0000 * single(0x3586_37bd).value() < one(),
{
    let u = one();
    lemma2_to64();
    lemma_pow2_adds(15, 134);
    lemma_pow2_adds(17, 132);
    lemma_pow2_adds(43, 106);
    lemma_pow2_adds(32, 11);
    let (a, b, d) = (pow2(134) as int, pow2(132) as int, pow2(106) as int);
    assert(0x43dc_0000int / 0x80_0000 == 135 && 0x43dc_0000int % 0x80_0000 == 0x5c_0000);
    assert(0x428a_0000int / 0x80_0000 == 133 && 0x428a_0000int % 0x80_0000 == 0x0a_0000);
    assert(0x3586_37bdint / 0x80_0000 == 107 && 0x3586_37bdint % 0x80_0000 == 0x06_37bd);
    assert(0xdc_0000 * a == 440 * u) by (nonlinear_arith)
        requires
            u == 0x8000 * a,
    ;
    assert(0x8a_0000 * b == 69 * u) by (nonlinear_arith)
        requires
            u == 0x2_0000 * b,
    ;
    lemma_pow2_pos(106);
    assert(0x4_0000 * (0x86_37bd * d) < u) by (nonlinear_arith)
        requires
            u == 0x800_0000_0000 * d,
            d > 0,
    ;
    assert(single(0x43dc_0000).value() == single_value(0x43dc_0000));
    assert(single(0x428a_0000).value() == single_value(0x428a_0000));
    assert(single(0x3586_37bd).value() == single_value(0x3586_37bd));
}

/// A twelfth of a number of semitones, rounded.
proof fn lemma_octaves<K: Fn(Op, Width, u64, u64) -> u64>(c: &Calc<K>, st: F32)
    requires
        rounds(c),
        st.finite(),
        apart(st.value(), 0) <= 190 * one(),
    ensures
        ({
            let y = st.div(c, single(0x4140_0000));
            &&& y.finite()
            &&& apart(y.value(), 0) <= 16 * one()
            &&& 0x4_0000 * apart(12 * y.value(), st.value()) <= 12 * one()
        }),
{
    let (u, h) = (one(), pow2(131) as int);
    lemma_pow2_pos(131);
    lemma_pow2_adds(18, 131);
    lemma2_to64();
    assert(u == 0x4_0000 * h);
    lemma_twelve();
    let (s, twelve) = (st.value(), single(0x4140_0000));
    let y = st.div(c, twelve);
    let d = 12 * u;
    assert(apart(s * u, 0) <= 0x2_0000_0000_0000_0000 * (u * d) && apart(s * u, 0) < 0x80_0000 * (h * d)) by (nonlinear_arith)
        requires
            -190 * u <= s <= 190 * u,
            u == 0x4_0000 * h,
            d == 12 * u,
            h > 0,
    ;
    lemma_reached(s * u, d);
    lemma_div(c, st, twelve);
    lemma_error(y, s * u, d, 132);
    let v = y.value();
    assert(-(12 * h) < 12 * v - s < 12 * h) by (nonlinear_arith)
        requires
            -(h * d) < v * d - s * u < h * d,
            d == 12 * u,
            u > 0,
    ;
}

/// Twelve times a number of octaves, rounded.
proof fn lemma_twelvefold<K: Fn(Op, Width, u64, u64) -> u64>(c: &Calc<K>, l: F32)
    requires
        rounds(c),
        l.finite(),
        apart(l.value(), 0) <= 17 * one(),
    ensures
        ({
            let m = single(0x4140_0000).mul(c, l);
            m.finite() && 0x8000 * apart(m.value(), 12 * l.value()) <= one()
        }),
{
    let (u, h) = (one(), pow2(134) as int);
    lemma_pow2_pos(134);
    lemma_pow2_adds(15, 134);
    lemma2_to64();
    assert(u == 0x8000 * h);
    lemma_twelve();
    let (v, twelve) = (l.value(), single(0x4140_0000));
    let m = twelve.mul(c, l);
    let n = twelve.value() * v;
    assert(n == (12 * v) * u) by (nonlinear_arith)
        requires
            n == twelve.value() * v,
            twelve.value() == 12 * u,
    ;
    assert(apart(n, 0) <= 0x2_0000_0000_0000_0000 * (u * u) && apart(n, 0) < 0x80_0000 * (h * u)) by (nonlinear_arith)
        requires
            -17 * u <= v <= 17 * u,
            u == 0x8000 * h,
            n == (12 * v) * u,
            h > 0,
    ;
    lemma_reached(n, u);
    lemma_mul(c, twelve, l);
    lemma_error(m, n, u, 135);
    let w = m.value();
    assert(-h < w - 12 * v < h) by (nonlinear_arith)
        requires
            -(h * u) < w * u - (12 * v) * u < h * u,
            u > 0,
    ;
}

/// A ratio close to that of some semitones comes back as those semitones, to a
/// five-thousandth.
pub proof fn law_semitones_come_back<K: Fn(Op, Width, u64, u64) -> u64>(c: &Calc<K>, st: F32, ratio: F32)
    requires
        rounds(c),
        logs_undo_powers(c),
        st.finite(),
        apart(st.value(), 0) <= 190 * one(),
        close_to(ratio, semitones_to_ratio(c, st)),
    ensures
        ratio_to_semitones(c, ratio).finite(),
        5000 * apart(ratio_to_semitones(c, ratio).value(), st.value()) < one(),
{
    lemma_pow2_pos(149);
    lemma_octaves(c, st);
    lemma_anchors();
    let y = st.div(c, single(0x4140_0000));
    lemma_power(c, y);
    law_single_order_is_numeric(ratio, single(0x3586_37bd));
    law_single_order_is_numeric(single(0x3586_37bd), ratio);
    assert(ratio.max(single(0x3586_37bd)) == ratio);
    lemma_undone(c, y, ratio);
    lemma_twelvefold(c, ratio.log2(c));
}

/// A pitch number from its octaves above A4.
proof fn lemma_pitch_number<K: Fn(Op, Width, u64, u64) -> u64>(c: &Calc<K>, m: F32)
    requires
        rounds(c),
        m.finite(),
        apart(m.value(), 0) <= 205 * one(),
    ensures
        ({
            let n = single(0x428a_0000).add(c, m);
            n.finite() && 0x4000 * apart(n.value(), 69 * one() + m.value()) <= one()
        }),
{
    let (u, h) = (one(), pow2(135) as int);
    lemma_pow2_pos(135);
    lemma_pow2_adds(14, 135);
    lemma2_to64();
    assert(u == 0x4000 * h);
    lemma_anchors();
    let sum = 69 * u + m.value();
    lemma_reached(sum, 1);
    lemma_add(c, single(0x428a_0000), m);
    lemma_error(single(0x428a_0000).add(c, m), sum, 1, 136);
}

/// What a quotient of medium size lies between.
proof fn lemma_sized(q: int, d: int)
    requires
        one() * one() <= 0x4_0000 * q,
        q <= 0x800_0000 * (one() * one()),
        one() <= d <= 0x1_0000 * one(),
    ensures
        reached(q, d),
        0x2000_0000_0000 * d <= q < 0x80_0000 * (pow2(199) * d),
{
    let (u, t) = (one(), pow2(85) as int);
    lemma_pow2_pos(149);
    lemma_pow2_pos(85);
    lemma_pow2_adds(64, 85);
    lemma_pow2_adds(50, 149);
    lemma_pow2_adds(32, 18);
    lemma_pow2_adds(64, 21);
    lemma2_to64();
    assert(u == 0x1_0000_0000_0000_0000 * t && pow2(199) == 0x4_0000_0000_0000 * u);
    assert(t >= 0x1_0000_0000_0000_0000);
    assert(u * u <= u * d && 0 < u * d && 0 <= u * u) by (nonlinear_arith)
        requires
            0 < u <= d,
    ;
    lemma_reached(q, d);
    assert(pow2(199) * d == 0x4_0000_0000_0000 * (u * d)) by (nonlinear_arith)
        requires
            pow2(199) == 0x4_0000_0000_0000 * u,
    ;
    assert(0x8000_0000_0000_0000_0000 * u <= u * u) by (nonlinear_arith)
        requires
            u == 0x1_0000_0000_0000_0000 * t,
            t >= 0x1_0000_0000_0000_0000,
    ;
}

/// The frequency of a note, divided by a base and multiplied with it again, is close to
/// the frequency.
#[verifier::rlimit(30)]
#[verifier::spinoff_prover]
proof fn lemma_over_and_back<K: Fn(Op, Width, u64, u64) -> u64>(c: &Calc<K>, p: F32, base: F32)
    requires
        rounds(c),
        p.finite(),
        one() <= 0x2_0000 * p.value(),
        p.value() <= 0x2_0000 * one(),
        base.finite(),
        one() <= base.value() <= 0x1_0000 * one(),
    ensures
        ({
            let a4 = single(0x43dc_0000);
            let r = a4.mul(c, p).div(c, base);
            &&& r.finite()
            &&& r.value() > 0
            &&& close_to(base.mul(c, r).div(c, a4), p)
        }),
{
    let u = one();
    lemma_pow2_pos(149);
    lemma_anchors();
    let (a4, v, z) = (single(0x43dc_0000), p.value(), base.value());
    let n0 = a4.value() * v;
    assert(n0 == (440 * v) * u) by (nonlinear_arith)
        requires
            n0 == a4.value() * v,
            a4.value() == 440 * u,
    ;
    let q0 = n0;
    let a = a4.mul(c, p);
    assert(u <= 0x2_0000 * v && 440 * v <= 0x400_0000 * u);
    assert(u * u <= 0x2_0000 * q0 && q0 <= 0x400_0000 * (u * u)) by (nonlinear_arith)
        requires
            u <= 0x2_0000 * v,
            440 * v <= 0x400_0000 * u,
            q0 == (440 * v) * u,
            u > 0,
    ;
    lemma_sized(q0, u);
    lemma_mul(c, a4, p);
    lemma_relative(a, q0, u, 200);
    let q1 = a.value() * u;
    assert(0x40_0000 * apart(q1, q0) <= q0);
    let r = a.div(c, base);
    assert(z * u <= 0x1_0000 * (u * u) && u * u <= z * u) by (nonlinear_arith)
        requires
            u <= z <= 0x1_0000 * u,
            u > 0,
    ;
    lemma_sized(q1, z);
    lemma_div(c, a, base);
    lemma_relative(r, q1, z, 200);
    let q2 = r.value() * z;
    assert(0x40_0000 * apart(q2, q1) <= q1);
    assert(r.value() > 0) by (nonlinear_arith)
        requires
            q2 == r.value() * z,
            q2 > 0,
            z > 0,
    ;
    assert(z * r.value() == q2) by (nonlinear_arith)
        requires
            q2 == r.value() * z,
    ;
    let b = base.mul(c, r);
    lemma_sized(q2, u);
    lemma_mul(c, base, r);
    lemma_relative(b, q2, u, 200);
    let q3 = b.value() * u;
    assert(0x40_0000 * apart(q3, q2) <= q2);
    let x = b.div(c, a4);
    lemma_sized(q3, 440 * u);
    lemma_div(c, b, a4);
    lemma_relative(x, q3, 440 * u, 200);
    let q4 = x.value() * (440 * u);
    assert(0x40_0000 * apart(q4, q3) <= q3);
    assert(0x8_0000 * apart(q4, q0) <= q0);
    assert(0x8_0000 * apart(x.value(), v) <= v) by (nonlinear_arith)
        requires
            0x8_0000 * apart(q4, q0) <= q0,
            q4 == x.value() * (440 * u),
            q0 == (440 * v) * u,
            u > 0,
    ;
}

/// A note comes back from its frequency, also by way of a ratio to a base: the pitch
/// number is the note's, to a thousandth of a semitone, and the ratio is positive.
pub proof fn law_notes_come_back<K: Fn(Op, Width, u64, u64) -> u64>(c: &Calc<K>, note: i64, base_hz: F32)
    requires
        rounds(c),
        logs_undo_powers(c),
        -120 <= note <= 250,
        base_hz.finite(),
        one() <= base_hz.value() <= 0x1_0000 * one(),
    ensures
        ({
            let ratio = midi_to_hz(c, F32::of_int(c, note)).div(c, base_hz);
            let m = hz_to_midi(c, base_hz.mul(c, ratio));
            &&& ratio.finite()
            &&& ratio.value() > 0
            &&& m.finite()
            &&& 1000 * apart(m.value(), note * one()) < one()
        }),
{
    let u = one();
    lemma_pow2_pos(149);
    lemma_anchors();
    lemma_whole(c, note);
    let q = F32::of_int(c, note);
    let up = note - 69;
    let st = q.sub(c, single(0x428a_0000));
    assert(note * u - 69 * u == up * u && -190 * u <= up * u <= 190 * u) by (nonlinear_arith)
        requires
            up == note - 69,
            -190 <= up <= 190,
            u > 0,
    ;
    lemma_reached(up * u, 1);
    lemma_sub(c, q, single(0x428a_0000));
    lemma_grid(up, 150);
    lemma_exact(st, up * u, 1, grid(up, 150));
    assert(st.value() == up * u);
    lemma_octaves(c, st);
    let y = st.div(c, single(0x4140_0000));
    lemma_power(c, y);
    let p = single(0x4000_0000).pow(c, y);
    lemma_over_and_back(c, p, base_hz);
    let ratio = midi_to_hz(c, q).div(c, base_hz);
    let x = base_hz.mul(c, ratio).div(c, single(0x43dc_0000));
    lemma_undone(c, y, x);
    let l = x.log2(c);
    lemma_twelvefold(c, l);
    let m = single(0x4140_0000).mul(c, l);
    lemma_pitch_number(c, m);
}

/// A ratio on the key sounds on the key: the pitch that it is heard at, from its frequency,
/// is the nearest note of the key to the pitch asked for, to a thousandth of a semitone.
pub proof fn law_ratios_sound_on_the_key<K: Fn(Op, Width, u64, u64) -> u64>(c: &Calc<K>, key: Key, base_hz: F32, ratio: F32)
    requires
        rounds(c),
        logs_undo_powers(c),
        key.wf(),
        base_hz.finite(),
        one() <= base_hz.value() <= 0x1_0000 * one(),
        single(0).lt(ratio),
        ({
            let asked = hz_to_midi(c, base_hz.mul(c, ratio));
            asked.finite() && -90 * one() <= asked.value() <= 220 * one()
        }),
    ensures
        ({
            let out = key.tuned(c, base_hz, ratio);
            let heard = hz_to_midi(c, base_hz.mul(c, out));
            &&& out.finite()
            &&& out.value() > 0
            &&& heard.finite()
            &&& exists|note: i64| #[trigger]
                nearest_in_key(c, key, hz_to_midi(c, base_hz.mul(c, ratio)), note) && 1000 * apart(
                    heard.value(),
                    note * one(),
                ) < one()
        }),
{
    let u = one();
    lemma_pow2_pos(149);
    assert(single_value(0) == 0);
    law_single_order_is_numeric(single(0), base_hz);
    let asked = hz_to_midi(c, base_hz.mul(c, ratio));
    law_ratios_land_on_the_key(c, key, base_hz, ratio);
    let note = choose|note: i64| #[trigger]
        nearest_in_key(c, key, asked, note) && key.tuned(c, base_hz, ratio) == midi_to_hz(
            c,
            F32::of_int(c, note),
        ).div(c, base_hz);
    lemma_nearest_is_near(c, key, asked, note);
    assert(-120 <= note <= 250) by (nonlinear_arith)
        requires
            -120 * u <= note * u <= 250 * u,
            u > 0,
    ;
    law_notes_come_back(c, note, base_hz);
}

/// The semitones that a grain is heard at, with no detuning.
pub open spec fn heard_semitones<K: Fn(Op, Width, u64, u64) -> u64>(c: &Calc<K>, semitones: F32, key: Key, base_hz: F32, amount: F32) -> F32 {
    ratio_to_semitones(c, effective(c, semitones, Some(key), base_hz, amount, single(0)))
}

/// What is heard at an amount above zero is the pulled semitones, to a five-thousandth.
#[verifier::spinoff_prover]
#[verifier::rlimit(40)]
proof fn lemma_heard<K: Fn(Op, Width, u64, u64) -> u64>(c: &Calc<K>, semitones: F32, key: Key, base_hz: F32, amount: F32)
    requires
        rounds(c),
        logs_undo_powers(c),
        powers_start_at_one(c),
        semitones.finite(),
        apart(semitones.value(), 0) <= 60 * one(),
        single(0).lt(amount),
        amount.le(single(0x3f80_0000)),
        within_octaves(ratio_to_semitones(c, key.tuned(c, base_hz, semitones_to_ratio(c, semitones)))),
    ensures
        ({
            let raw = semitones_to_ratio(c, semitones);
            let s = ratio_to_semitones(c, raw);
            let q = ratio_to_semitones(c, key.tuned(c, base_hz, raw));
            let f = heard_semitones(c, semitones, key, base_hz, amount);
            let target = s.value() * one() + (q.value() - s.value()) * amount.value();
            &&& s.finite()
            &&& 5000 * apart(s.value(), semitones.value()) < one()
            &&& amount.finite()
            &&& 0 <= amount.value() <= one()
            &&& f.finite()
            &&& 3400 * apart(f.value() * one(), target) < one() * one()
        }),
{
    let raw = semitones_to_ratio(c, semitones);
    let s = ratio_to_semitones(c, raw);
    let q = ratio_to_semitones(c, key.tuned(c, base_hz, raw));
    let (u, h) = (one(), pow2(134) as int);
    lemma_pow2_pos(149);
    lemma_pow2_pos(134);
    lemma_pow2_adds(15, 134);
    lemma2_to64();
    assert(u == 0x8000 * h);
    lemma_self_close(c, semitones);
    law_semitones_come_back(c, semitones, raw);
    law_single_order_is_numeric(single(0), amount);
    law_single_order_is_numeric(amount, single(0x3f80_0000));
    lemma_unit();
    assert(single_value(0) == 0);
    lemma_pulled(c, s, q, amount, 6);
    let (a, sv, qv) = (amount.value(), s.value(), q.value());
    let p = pulled_semitones(c, s, q, amount);
    let pv = p.value();
    let target = sv * u + (qv - sv) * a;
    lemma_between(sv, qv, a, u);
    assert(u * u == 0x8000 * (h * u) && 0 < h * u) by (nonlinear_arith)
        requires
            u == 0x8000 * h,
            h > 0,
    ;
    assert(-66 * u <= pv <= 66 * u) by (nonlinear_arith)
        requires
            -65 * (u * u) <= pv * u <= 65 * (u * u),
            u > 0,
    ;
    lemma_self_close(c, p);
    let out = semitones_to_ratio(c, p);
    assert(pitched(c, semitones, Some(key), base_hz, amount) == out);
    lemma_undetuned(c, semitones, Some(key), base_hz, amount);
    law_semitones_come_back(c, p, out);
    let f = heard_semitones(c, semitones, key, base_hz, amount);
    let fv = f.value();
    assert(5000 * apart(fv * u, pv * u) < u * u) by (nonlinear_arith)
        requires
            5000 * apart(fv, pv) < u,
            u > 0,
    ;
}

/// A blend of two numbers is within the bounds of both.
proof fn lemma_between(s: int, q: int, a: int, u: int)
    by (nonlinear_arith)
    requires
        -64 * u <= s <= 64 * u,
        -64 * u <= q <= 64 * u,
        0 <= a <= u,
    ensures
        -64 * (u * u) <= s * u + (q - s) * a <= 64 * (u * u),
{
    assert(s * u + (q - s) * a == s * (u - a) + q * a);
    assert(-64 * u * (u - a) <= s * (u - a) <= 64 * u * (u - a));
    assert(-64 * u * a <= q * a <= 64 * u * a);
    assert(64 * u * (u - a) + 64 * u * a == 64 * (u * u));
}

/// The ratio of some semitones is close to itself, and positive.
proof fn lemma_self_close<K: Fn(Op, Width, u64, u64) -> u64>(c: &Calc<K>, st: F32)
    requires
        rounds(c),
        logs_undo_powers(c),
        st.finite(),
        apart(st.value(), 0) <= 190 * one(),
    ensures
        close_to(semitones_to_ratio(c, st), semitones_to_ratio(c, st)),
        semitones_to_ratio(c, st).value() > 0,
{
    lemma_pow2_pos(149);
    lemma_octaves(c, st);
    lemma_power(c, st.div(c, single(0x4140_0000)));
}

/// Whether semitones are a number from -64 to 64.
pub open spec fn within_octaves(semitones: F32) -> bool {
    semitones.finite() && apart(semitones.value(), 0) <= 64 * one()
}

/// What is heard moves linearly with the amount: at an amount `a` it is the way `a` from
/// the semitones asked for to what is heard at the amount one, to a thousandth of a
/// semitone. At zero it is the semitones asked for, at a half it is halfway.
#[verifier::spinoff_prover]
#[verifier::rlimit(40)]
pub proof fn law_what_is_heard_moves_linearly<K: Fn(Op, Width, u64, u64) -> u64>(c: &Calc<K>, semitones: F32, key: Key, base_hz: F32, amount: F32)
    requires
        rounds(c),
        logs_undo_powers(c),
        powers_start_at_one(c),
        semitones.finite(),
        apart(semitones.value(), 0) <= 60 * one(),
        single(0).le(amount),
        amount.le(single(0x3f80_0000)),
        within_octaves(ratio_to_semitones(c, key.tuned(c, base_hz, semitones_to_ratio(c, semitones)))),
    ensures
        ({
            let f = heard_semitones(c, semitones, key, base_hz, amount);
            let full = heard_semitones(c, semitones, key, base_hz, single(0x3f80_0000));
            let st = semitones.value();
            &&& f.finite()
            &&& full.finite()
            &&& 1000 * apart(f.value() * one(), st * one() + (full.value() - st) * amount.value()) < one() * one()
        }),
{
    let u = one();
    lemma_pow2_pos(149);
    assert(u * u > 0) by (nonlinear_arith)
        requires
            u > 0,
    ;
    lemma_unit();
    let unit = single(0x3f80_0000);
    assert(single_value(0) == 0);
    law_single_order_is_numeric(single(0), unit);
    law_single_order_is_numeric(single(0), amount);
    law_single_order_is_numeric(amount, unit);
    lemma_heard(c, semitones, key, base_hz, unit);
    let raw = semitones_to_ratio(c, semitones);
    let (sv, st, a) = (ratio_to_semitones(c, raw).value(), semitones.value(), amount.value());
    let qv = ratio_to_semitones(c, key.tuned(c, base_hz, raw)).value();
    let full = heard_semitones(c, semitones, key, base_hz, unit).value();
    let f = heard_semitones(c, semitones, key, base_hz, amount);
    let fv = f.value();
    assert(3400 * apart(full, qv) < u) by (nonlinear_arith)
        requires
            3400 * apart(full * u, sv * u + (qv - sv) * u) < u * u,
            u > 0,
    ;
    if single(0).lt(amount) {
        lemma_heard(c, semitones, key, base_hz, amount);
    } else {
        lemma_self_close(c, semitones);
        assert(pitched(c, semitones, Some(key), base_hz, amount) == raw);
        lemma_undetuned(c, semitones, Some(key), base_hz, amount);
        law_single_order_is_numeric(amount, single(0));
        assert(a == 0);
        assert((qv - sv) * a == 0) by (nonlinear_arith)
            requires
                a == 0,
        ;
    }
    lemma_blend(fv, sv, qv, st, full, a, u);
}

/// Ends that are a little off put a blend of them a little off.
proof fn lemma_blend(f: int, s: int, q: int, st: int, full: int, a: int, u: int)
    by (nonlinear_arith)
    requires
        3400 * apart(f * u, s * u + (q - s) * a) < u * u,
        5000 * apart(s, st) < u,
        3400 * apart(full, q) < u,
        0 <= a <= u,
        u > 0,
    ensures
        1000 * apart(f * u, st * u + (full - st) * a) < u * u,
{
    let (d, e) = (s - st, q - full);
    let target = s * u + (q - s) * a;
    assert(target - (st * u + (full - st) * a) == d * (u - a) + e * a);
    assert(-u * (u - a) <= 3400 * d * (u - a) <= u * (u - a));
    assert(-u * a <= 3400 * e * a <= u * a);
    assert(u * (u - a) + u * a == u * u);
}

} // verus!
