//! What keys do to pitches, in numbers: laws of arithmetic that rounds to nearest.
use crate::calc::{Calc, Op, Width};
use crate::music::{
    detuning, effective, hz_to_midi, midi_to_hz, octave_of, pitched, ratio_to_semitones,
    semitones_to_ratio, Key, ScaleKind, INFINITY,
};
use crate::num::{law_single_order_is_numeric, single, single_value, F32};
use crate::rounding::{
    apart, grid, lemma_abs, lemma_add, lemma_at_least, lemma_at_most, lemma_div, lemma_error,
    lemma_exact, lemma_floor, lemma_grid, lemma_in_reach, lemma_mul, lemma_of_int, lemma_order, lemma_reached,
    lemma_sub, lemma_whole, nearest, one, rounds,
};
use vstd::arithmetic::power2::{lemma2_to64, lemma_pow2_adds, lemma_pow2_pos, pow2};
use vstd::prelude::*;

verus! {

/// How far a note is from a pitch.
pub open spec fn gap<K: Fn(Op, Width, u64, u64) -> u64>(c: &Calc<K>, n: i64, midi: F32) -> F32 {
    F32::of_int(c, n).sub(c, midi).abs()
}

/// Whether a pitch is a number from -1000 to 1000.
pub open spec fn in_reach(midi: F32) -> bool {
    midi.finite() && apart(midi.value(), 0) <= 1000 * one()
}

pub(crate) proof fn lemma_twelve()
    ensures
        single(0x4140_0000).finite(),
        single(0x4140_0000).value() == 12 * one(),
{
    assert(0x4140_0000int / 0x80_0000 == 130 && 0x4140_0000int % 0x80_0000 == 0x40_0000);
    lemma_pow2_adds(20, 129);
    lemma2_to64();
    let (a, u) = (pow2(129) as int, one());
    assert(0xc0_0000 * a == 12 * u) by (nonlinear_arith)
        requires
            u == 0x10_0000 * a,
    ;
    assert(single(0x4140_0000).value() == single_value(0x4140_0000));
}

/// The octave of a pitch is that of the whole note below it, or the next one.
proof fn lemma_octave<K: Fn(Op, Width, u64, u64) -> u64>(c: &Calc<K>, midi: F32)
    requires
        rounds(c),
        in_reach(midi),
    ensures
        ({
            let b = octave_of(c, midi) as int;
            &&& -84 <= b <= 83
            &&& (12 * b - 1) * one() < midi.value() < (12 * b + 12) * one()
        }),
{
    let u = one();
    let h = pow2(145) as int;
    lemma_pow2_pos(149);
    lemma_pow2_pos(145);
    lemma_pow2_adds(4, 145);
    lemma2_to64();
    assert(u == 16 * h);
    lemma_twelve();
    let twelve = single(0x4140_0000);
    let v = midi.value();
    let q = midi.div(c, twelve);
    assert(apart(v * u, 0) <= 0x1_0000_0000_0000_0000 * (u * (12 * u))) by (nonlinear_arith)
        requires
            -1000 * u <= v <= 1000 * u,
            u > 0,
    ;
    lemma_reached(v * u, 12 * u);
    lemma_div(c, midi, twelve);
    let w = q.value();
    assert forall|m: int| -100 <= m <= 100 && #[trigger] (12 * m) * u <= v implies m * u <= w by {
        lemma_grid(m, 150);
        let y = grid(m, 150);
        assert(y.value() * (12 * u) <= v * u) by (nonlinear_arith)
            requires
                y.value() == m * u,
                (12 * m) * u <= v,
                u > 0,
        ;
        lemma_at_least(q, v * u, 12 * u, y);
    }
    assert forall|m: int| -100 <= m <= 100 && v <= #[trigger] (12 * m - 1) * u implies w < m * u by {
        lemma_grid(16 * m - 1, 146);
        let y = grid(16 * m - 1, 146);
        assert(v * u <= y.value() * (12 * u) && y.value() < m * u) by (nonlinear_arith)
            requires
                y.value() == (16 * m - 1) * h,
                v <= (12 * m - 1) * u,
                u == 16 * h,
                h > 0,
        ;
        lemma_at_most(q, v * u, 12 * u, y);
    }
    let b = w / u;
    assert(b * u <= w < b * u + u) by (nonlinear_arith)
        requires
            b == w / u,
            u > 0,
    ;
    assert((12 * -84) * u <= v) by (nonlinear_arith)
        requires
            -1000 * u <= v,
            u > 0,
    ;
    assert((12 * 84 - 1) * u >= v) by (nonlinear_arith)
        requires
            v <= 1000 * u,
            u > 0,
    ;
    assert(-84 * u <= w && w < 84 * u);
    assert(-84 <= b <= 83) by (nonlinear_arith)
        requires
            b * u <= w < b * u + u,
            -84 * u <= w < 84 * u,
            u > 0,
    ;
    lemma_floor(c, q);
    assert(octave_of(c, midi) == b);
    if v <= (12 * b - 1) * u {
        assert(false);
    }
    if (12 * b + 12) * u <= v {
        assert((12 * (b + 1)) * u <= v);
        assert((b + 1) * u == b * u + u) by (nonlinear_arith);
    }
}

/// Notes further up lie further up from a pitch, strictly so by the whole number.
proof fn lemma_near_notes<K: Fn(Op, Width, u64, u64) -> u64>(c: &Calc<K>, midi: F32, n: i64)
    requires
        rounds(c),
        in_reach(midi),
        -2000 <= n <= 2000,
    ensures
        ({
            let d = F32::of_int(c, n).sub(c, midi);
            &&& d.finite()
            &&& nearest(d, n * one() - midi.value(), 1)
            &&& 4 * apart(d.value(), n * one() - midi.value()) < one()
            &&& n * one() <= midi.value() ==> d.value() <= 0
            &&& midi.value() <= n * one() ==> 0 <= d.value()
        }),
{
    let u = one();
    lemma_pow2_pos(149);
    lemma_pow2_pos(147);
    lemma_pow2_adds(2, 147);
    lemma2_to64();
    lemma_whole(c, n);
    let x = F32::of_int(c, n);
    let e = x.value() - midi.value();
    assert(-3000 * u <= e <= 3000 * u) by (nonlinear_arith)
        requires
            e == n * u - midi.value(),
            -1000 * u <= midi.value() <= 1000 * u,
            -2000 <= n <= 2000,
            u > 0,
    ;
    lemma_reached(e, 1);
    let d = x.sub(c, midi);
    lemma_sub(c, x, midi);
    lemma_error(d, e, 1, 148);
    assert(single_value(0) == 0);
    let zero = F32 { bits: 0 };
    if e <= 0 {
        lemma_at_most(d, e, 1, zero);
    }
    if e >= 0 {
        lemma_at_least(d, e, 1, zero);
    }
}

/// A note below another one lies below it as seen from a pitch.
proof fn lemma_far_below<K: Fn(Op, Width, u64, u64) -> u64>(c: &Calc<K>, midi: F32, n: i64, m: i64)
    requires
        rounds(c),
        in_reach(midi),
        -1990 <= m <= 2000,
        n < m,
    ensures
        F32::of_int(c, n).sub(c, midi).finite(),
        F32::of_int(c, n).sub(c, midi).value() < F32::of_int(c, m).sub(c, midi).value(),
{
    let u = one();
    lemma_pow2_pos(149);
    let k = (m - 1) as i64;
    lemma_near_notes(c, midi, m);
    lemma_near_notes(c, midi, k);
    lemma_whole(c, k);
    let (x, y) = (F32::of_int(c, n), F32::of_int(c, k));
    lemma_of_int(c, n);
    lemma_of_int(c, k);
    assert(n * u <= k * u) by (nonlinear_arith)
        requires
            n <= k,
            u > 0,
    ;
    lemma_order(x, n * u, y, k * u, 1);
    lemma_grid(-1, 214);
    lemma_pow2_adds(64, 149);
    lemma2_to64();
    assert(n * u >= -0x1_0000_0000_0000_0000 * u) by (nonlinear_arith)
        requires
            n >= -0x1_0000_0000_0000_0000,
            u > 0,
    ;
    lemma_at_least(x, n * u, 1, grid(-1, 214));
    assert(x.value() >= -0x1_0000_0000_0000_0000 * u);
    let e = x.value() - midi.value();
    assert(y.value() <= 2000 * u) by (nonlinear_arith)
        requires
            y.value() == k * u,
            k <= 2000,
            u > 0,
    ;
    lemma_reached(e, 1);
    lemma_sub(c, x, midi);
    lemma_order(x.sub(c, midi), e, y.sub(c, midi), k * u - midi.value(), 1);
    assert(m * u == k * u + u) by (nonlinear_arith)
        requires
            m == k + 1,
    ;
}

/// A note above another one lies above it as seen from a pitch.
proof fn lemma_far_above<K: Fn(Op, Width, u64, u64) -> u64>(c: &Calc<K>, midi: F32, n: i64, m: i64)
    requires
        rounds(c),
        in_reach(midi),
        -2000 <= m <= 1990,
        m < n,
    ensures
        F32::of_int(c, n).sub(c, midi).finite(),
        F32::of_int(c, m).sub(c, midi).value() < F32::of_int(c, n).sub(c, midi).value(),
{
    let u = one();
    lemma_pow2_pos(149);
    let k = (m + 1) as i64;
    lemma_near_notes(c, midi, m);
    lemma_near_notes(c, midi, k);
    lemma_whole(c, k);
    let (x, y) = (F32::of_int(c, n), F32::of_int(c, k));
    lemma_of_int(c, n);
    lemma_of_int(c, k);
    assert(k * u <= n * u) by (nonlinear_arith)
        requires
            k <= n,
            u > 0,
    ;
    lemma_order(y, k * u, x, n * u, 1);
    lemma_grid(1, 214);
    lemma_pow2_adds(64, 149);
    lemma2_to64();
    assert(n * u <= 0x1_0000_0000_0000_0000 * u) by (nonlinear_arith)
        requires
            n <= 0x1_0000_0000_0000_0000,
            u > 0,
    ;
    lemma_at_most(x, n * u, 1, grid(1, 214));
    assert(x.value() <= 0x1_0000_0000_0000_0000 * u);
    let e = x.value() - midi.value();
    assert(y.value() >= -2000 * u) by (nonlinear_arith)
        requires
            y.value() == k * u,
            k >= -2000,
            u > 0,
    ;
    lemma_reached(e, 1);
    lemma_sub(c, x, midi);
    lemma_order(y.sub(c, midi), k * u - midi.value(), x.sub(c, midi), e, 1);
    assert(k * u == m * u + u) by (nonlinear_arith)
        requires
            k == m + 1,
    ;
}

proof fn lemma_steps(s: ScaleKind)
    ensures
        5 <= s.steps().len() <= 12,
        s.steps()[0] == 0,
        forall|i: int| 0 <= i < s.steps().len() ==> 0 <= #[trigger] s.steps()[i] < 12,
        forall|i: int, j: int| 0 <= i < j < s.steps().len() ==> s.steps()[i] < s.steps()[j],
{
}

/// The candidates go upwards.
proof fn lemma_candidates_go_up(key: Key, b: int, j: int, k: int)
    requires
        0 <= j < k < key.candidates(),
    ensures
        key.candidate(b, j) < key.candidate(b, k),
{
    lemma_steps(key.scale);
    let n = key.scale.steps().len() as int;
    assert(j / n <= k / n && 0 <= j % n < n && 0 <= k % n < n && (j / n == k / n ==> j % n < k % n)) by (nonlinear_arith)
        requires
            0 <= j < k,
            n > 0,
    ;
}

/// Every note of the key within the three octaves is a candidate.
proof fn lemma_candidates_are_all(key: Key, b: int, note: int) -> (k: int)
    requires
        key.holds(note),
        (b - 1) * 12 + key.root <= note < (b + 2) * 12 + key.root,
    ensures
        0 <= k < key.candidates(),
        key.candidate(b, k) == note,
{
    lemma_steps(key.scale);
    let n = key.scale.steps().len() as int;
    let d = note - key.root;
    let iv = (d % 12) as i32;
    let i = choose|i: int| 0 <= i < n && key.scale.steps()[i] == iv;
    let oct = d / 12 - (b - 1);
    assert(0 <= oct <= 2);
    let k = oct * n + i;
    assert(k / n == oct && k % n == i && 0 <= k < 3 * n) by (nonlinear_arith)
        requires
            k == oct * n + i,
            0 <= i < n,
            0 <= oct <= 2,
    ;
    k
}

/// Whether a note is the nearest one of a key to a pitch, and the lowest of those.
pub open spec fn nearest_in_key<K: Fn(Op, Width, u64, u64) -> u64>(c: &Calc<K>, key: Key, midi: F32, note: i64) -> bool {
    &&& key.holds(note as int)
    &&& forall|n: i64|
        #![trigger gap(c, n, midi)]
        key.holds(n as int) ==> gap(c, note, midi).le(gap(c, n, midi)) && (gap(c, n, midi).le(
            gap(c, note, midi),
        ) ==> note <= n)
}

/// A pitch snaps to the nearest of all notes of its key, ties going down.
pub proof fn law_snapping_finds_the_nearest_of_all<K: Fn(Op, Width, u64, u64) -> u64>(c: &Calc<K>, key: Key, midi: F32)
    requires
        rounds(c),
        key.wf(),
        in_reach(midi),
    ensures
        exists|note: i64| #[trigger]
            nearest_in_key(c, key, midi, note) && key.snapped(c, midi) == F32::of_int(c, note),
{
    let u = one();
    lemma_pow2_pos(149);
    let b = octave_of(c, midi) as int;
    lemma_octave(c, midi);
    lemma_steps(key.scale);
    let len = key.scale.steps().len() as int;
    let total = key.candidates();
    let low = ((b - 1) * 12 + key.root) as i64;
    let high = ((b + 1) * 12 + key.root) as i64;
    assert((2 * len) / len == 2 && (2 * len) % len == 0) by (nonlinear_arith)
        requires
            len > 0,
    ;
    assert(0int / len == 0 && 0int % len == 0) by (nonlinear_arith)
        requires
            len > 0,
    ;
    assert(key.candidate(b, 0) == low && key.candidate(b, 2 * len) == high);
    assert(low * u <= (12 * b - 1) * u && (12 * b + 12) * u <= high * u) by (nonlinear_arith)
        requires
            low <= 12 * b - 1,
            12 * b + 12 <= high,
            u > 0,
    ;
    lemma_near_notes(c, midi, low);
    lemma_near_notes(c, midi, high);
    lemma_abs(F32::of_int(c, low).sub(c, midi));
    lemma_abs(F32::of_int(c, high).sub(c, midi));
    key.law_snapping_finds_the_nearest(c, midi);
    let d0 = key.distance(c, midi, b, 0);
    assert(d0 == gap(c, low, midi));
    assert(d0.lt(single(INFINITY)));
    let r = key.snapped(c, midi);
    let k = choose|k: int| #[trigger]
        key.nearest(c, midi, b, total, k) && r == F32::of_int(c, key.candidate(b, k) as i64);
    let note = key.candidate(b, k) as i64;
    key.law_candidates_are_in_key(b, k);
    assert(0 <= k / len <= 2) by (nonlinear_arith)
        requires
            0 <= k < 3 * len,
            len > 0,
    ;
    assert(0 <= k % len < len) by (nonlinear_arith)
        requires
            len > 0,
    ;
    let best = gap(c, note, midi);
    assert(best == key.distance(c, midi, b, k));
    lemma_near_notes(c, midi, note);
    lemma_abs(F32::of_int(c, note).sub(c, midi));
    assert(best.le(gap(c, low, midi))) by {
        if 0 < k {
            assert(!key.distance(c, midi, b, 0).le(best));
        }
    }
    assert(best.le(gap(c, high, midi))) by {
        assert(key.distance(c, midi, b, 2 * len) == gap(c, high, midi));
        if k < 2 * len {
            assert(!key.distance(c, midi, b, 2 * len).lt(best));
        } else if k > 2 * len {
            assert(!key.distance(c, midi, b, 2 * len).le(best));
        }
    }
    assert forall|n: i64| #![trigger gap(c, n, midi)] key.holds(n as int) implies best.le(
        gap(c, n, midi),
    ) && (gap(c, n, midi).le(best) ==> note <= n) by {
        let g = gap(c, n, midi);
        if n < low {
            lemma_far_below(c, midi, n, low);
            lemma_abs(F32::of_int(c, n).sub(c, midi));
            law_single_order_is_numeric(gap(c, low, midi), g);
        } else if n >= (b + 2) * 12 + key.root {
            lemma_far_above(c, midi, n, high);
            lemma_abs(F32::of_int(c, n).sub(c, midi));
            law_single_order_is_numeric(gap(c, high, midi), g);
        } else {
            let j = lemma_candidates_are_all(key, b, n as int);
            assert(key.distance(c, midi, b, j) == g);
            lemma_near_notes(c, midi, n);
            lemma_abs(F32::of_int(c, n).sub(c, midi));
            if k < j {
                lemma_candidates_go_up(key, b, k, j);
                assert(!key.distance(c, midi, b, j).lt(best));
            } else if j < k {
                assert(!key.distance(c, midi, b, j).le(best));
            }
        }
    }
    assert(nearest_in_key(c, key, midi, note));
}

/// The nearest note of a key is within two octaves and a half of a pitch.
pub(crate) proof fn lemma_nearest_is_near<K: Fn(Op, Width, u64, u64) -> u64>(c: &Calc<K>, key: Key, midi: F32, note: i64)
    requires
        rounds(c),
        key.wf(),
        in_reach(midi),
        nearest_in_key(c, key, midi, note),
    ensures
        midi.value() - 30 * one() <= note * one() <= midi.value() + 30 * one(),
{
    let u = one();
    lemma_pow2_pos(149);
    lemma_octave(c, midi);
    let root = (12 * octave_of(c, midi) + key.root) as i64;
    lemma_steps(key.scale);
    assert(key.scale.steps().contains(0)) by {
        assert(key.scale.steps()[0] == 0);
    }
    assert(key.holds(root as int));
    lemma_near_notes(c, midi, root);
    lemma_abs(F32::of_int(c, root).sub(c, midi));
    let g = gap(c, root, midi);
    let best = gap(c, note, midi);
    assert(best.le(g));
    let b = octave_of(c, midi) as int;
    assert(-12 * u < root * u - midi.value() < 13 * u) by (nonlinear_arith)
        requires
            12 * b <= root < 12 * b + 12,
            (12 * b - 1) * u < midi.value() < (12 * b + 12) * u,
            u > 0,
    ;
    assert(g.value() < 14 * u);
    let (low, high) = ((root - 17) as i64, (root + 16) as i64);
    assert(low * u == root * u - 17 * u && high * u == root * u + 16 * u) by (nonlinear_arith)
        requires
            low == root - 17,
            high == root + 16,
    ;
    if note < low - 10 {
        let m = (low - 10) as i64;
        assert(m * u == low * u - 10 * u) by (nonlinear_arith)
            requires
                m == low - 10,
        ;
        lemma_near_notes(c, midi, m);
        lemma_far_below(c, midi, note, m);
        lemma_abs(F32::of_int(c, note).sub(c, midi));
        law_single_order_is_numeric(best, g);
        assert(false);
    }
    if note > high + 10 {
        let m = (high + 10) as i64;
        assert(m * u == high * u + 10 * u) by (nonlinear_arith)
            requires
                m == high + 10,
        ;
        lemma_near_notes(c, midi, m);
        lemma_far_above(c, midi, note, m);
        lemma_abs(F32::of_int(c, note).sub(c, midi));
        law_single_order_is_numeric(best, g);
        assert(false);
    }
    lemma_near_notes(c, midi, note);
    lemma_abs(F32::of_int(c, note).sub(c, midi));
    law_single_order_is_numeric(best, g);
}

/// A ratio lands on the key: it comes out as the ratio of the frequency of a note of the
/// key, the nearest one to the pitch asked for, to the source's own frequency.
pub proof fn law_ratios_land_on_the_key<K: Fn(Op, Width, u64, u64) -> u64>(c: &Calc<K>, key: Key, base_hz: F32, ratio: F32)
    requires
        rounds(c),
        key.wf(),
        single(0).lt(base_hz),
        single(0).lt(ratio),
        in_reach(hz_to_midi(c, base_hz.mul(c, ratio))),
    ensures
        exists|note: i64| #[trigger]
            nearest_in_key(c, key, hz_to_midi(c, base_hz.mul(c, ratio)), note) && key.tuned(
                c,
                base_hz,
                ratio,
            ) == midi_to_hz(c, F32::of_int(c, note)).div(c, base_hz),
{
    law_snapping_finds_the_nearest_of_all(c, key, hz_to_midi(c, base_hz.mul(c, ratio)));
}

/// The semitones `amount` of the way from `raw` to `snapped`.
pub open spec fn pulled_semitones<K: Fn(Op, Width, u64, u64) -> u64>(c: &Calc<K>, raw: F32, snapped: F32, amount: F32) -> F32 {
    raw.add(c, snapped.sub(c, raw).mul(c, amount))
}

/// Whether semitones are a number from -256 to 256.
pub open spec fn singable(semitones: F32) -> bool {
    semitones.finite() && apart(semitones.value(), 0) <= 256 * one()
}

/// The amount moves linearly between the raw pitch and the snapped one: at an amount `a`
/// the ratio is that of `raw + a * (snapped - raw)` semitones, to a thousandth of a
/// semitone.
pub proof fn law_the_amount_moves_linearly<K: Fn(Op, Width, u64, u64) -> u64>(c: &Calc<K>, semitones: F32, key: Key, base_hz: F32, amount: F32)
    requires
        rounds(c),
        single(0).lt(amount),
        amount.le(single(0x3f80_0000)),
        ({
            let raw = semitones_to_ratio(c, semitones);
            &&& singable(ratio_to_semitones(c, raw))
            &&& singable(ratio_to_semitones(c, key.tuned(c, base_hz, raw)))
        }),
    ensures
        ({
            let raw = semitones_to_ratio(c, semitones);
            let s = ratio_to_semitones(c, raw);
            let q = ratio_to_semitones(c, key.tuned(c, base_hz, raw));
            let p = pulled_semitones(c, s, q, amount);
            &&& pitched(c, semitones, Some(key), base_hz, amount) == semitones_to_ratio(c, p)
            &&& p.finite()
            &&& 1000 * apart(
                p.value() * one(),
                s.value() * one() + (q.value() - s.value()) * amount.value(),
            ) < one() * one()
        }),
{
    let raw = semitones_to_ratio(c, semitones);
    let s = ratio_to_semitones(c, raw);
    let q = ratio_to_semitones(c, key.tuned(c, base_hz, raw));
    let (u, h) = (one(), pow2(136) as int);
    lemma_pow2_pos(149);
    lemma_pow2_pos(136);
    lemma_pow2_adds(13, 136);
    lemma2_to64();
    assert(u == 8192 * h);
    law_single_order_is_numeric(single(0), amount);
    law_single_order_is_numeric(amount, single(0x3f80_0000));
    lemma_unit();
    assert(single_value(0) == 0);
    lemma_pulled(c, s, q, amount, 8);
    assert(u * u == 8192 * (h * u) && 0 < h * u) by (nonlinear_arith)
        requires
            u == 8192 * h,
            h > 0,
    ;
}

/// Pulling between two numbers of at most 2^k semitones rounds three times.
pub(crate) proof fn lemma_pulled<K: Fn(Op, Width, u64, u64) -> u64>(c: &Calc<K>, s: F32, q: F32, amount: F32, k: nat)
    requires
        rounds(c),
        k <= 8,
        s.finite(),
        q.finite(),
        amount.finite(),
        apart(s.value(), 0) <= pow2(k) * one(),
        apart(q.value(), 0) <= pow2(k) * one(),
        0 <= amount.value() <= one(),
    ensures
        ({
            let p = pulled_semitones(c, s, q, amount);
            &&& p.finite()
            &&& apart(p.value() * one(), s.value() * one() + (q.value() - s.value()) * amount.value()) < 3 * (
            pow2(128 + k) * one())
        }),
{
    let (u, h) = (one(), pow2(128 + k) as int);
    lemma_pow2_pos(149);
    lemma_pow2_pos(128 + k);
    lemma_pow2_adds(21, 128);
    lemma_pow2_adds(k, 149);
    lemma_pow2_adds(21, 128 + k);
    lemma_pow2_adds(128 + k, (21 - k) as nat);
    lemma_pow2_pos((21 - k) as nat);
    lemma2_to64();
    assert(pow2(k) * u == 0x20_0000 * h);
    assert(h <= u) by (nonlinear_arith)
        requires
            u == h * pow2((21 - k) as nat),
            pow2((21 - k) as nat) >= 1,
            h > 0,
    ;
    let a = amount.value();
    let far = q.value() - s.value();
    lemma_reached(far, 1);
    lemma_sub(c, q, s);
    let d = q.sub(c, s);
    lemma_error(d, far, 1, 129 + k as int);
    let dv = d.value();
    assert(apart(dv, far) < h);
    assert(apart(dv * a, 0) <= 0x40_0001 * (h * u) && apart((dv - far) * a, 0) <= h * u && h * u <= u * u && 0 < h
        * u) by (nonlinear_arith)
        requires
            -0x40_0001 * h <= dv <= 0x40_0001 * h,
            -h < dv - far < h,
            0 <= a <= u,
            0 < h <= u,
    ;
    lemma_reached(dv * a, u);
    lemma_mul(c, d, amount);
    let m = d.mul(c, amount);
    lemma_error(m, dv * a, u, 129 + k as int);
    let mv = m.value();
    assert(-0x40_0002 * h <= mv <= 0x40_0002 * h) by (nonlinear_arith)
        requires
            -(h * u) < mv * u - dv * a < h * u,
            -0x40_0001 * (h * u) <= dv * a <= 0x40_0001 * (h * u),
            u > 0,
    ;
    let sum = s.value() + mv;
    lemma_reached(sum, 1);
    lemma_add(c, s, m);
    let p = s.add(c, m);
    lemma_error(p, sum, 1, 129 + k as int);
    let (pv, sv) = (p.value(), s.value());
    assert(apart(pv * u, sv * u + far * a) < 3 * (h * u)) by (nonlinear_arith)
        requires
            -h < pv - (sv + mv) < h,
            -(h * u) < mv * u - dv * a < h * u,
            -(h * u) <= (dv - far) * a <= h * u,
            u > 0,
    {
        assert(-(h * u) < (pv - (sv + mv)) * u < h * u);
        assert(pv * u - (sv * u + far * a) == (pv - (sv + mv)) * u + (mv * u - dv * a) + (dv - far)
            * a);
    }
}

pub(crate) proof fn lemma_unit()
    ensures
        single(0x3f80_0000).finite(),
        single(0x3f80_0000).value() == one(),
{
    assert(0x3f80_0000int / 0x80_0000 == 127 && 0x3f80_0000int % 0x80_0000 == 0);
    lemma_pow2_adds(23, 126);
    lemma2_to64();
    let (a, u) = (pow2(126) as int, one());
    assert(0x80_0000 * a == u);
    assert(single(0x3f80_0000).value() == single_value(0x3f80_0000));
}

/// An amount of zero leaves the pitch free although a key is set, and so does having none.
pub proof fn law_no_amount_is_free<K: Fn(Op, Width, u64, u64) -> u64>(c: &Calc<K>, semitones: F32, key: Option<Key>, base_hz: F32, amount: F32)
    requires
        key is None || amount.le(single(0)),
    ensures
        pitched(c, semitones, key, base_hz, amount) == semitones_to_ratio(c, semitones),
{
}

/// Whether two to the power of zero is one.
pub open spec fn powers_start_at_one<K: Fn(Op, Width, u64, u64) -> u64>(c: &Calc<K>) -> bool {
    forall|z: F32|
        z.mag() == 0 ==> #[trigger] single(0x4000_0000).pow(c, z) == single(0x3f80_0000)
}

/// Detuning comes after the snap: it is a factor on the ratio that is not detuned, and what
/// is beyond a hundred cents counts as a hundred.
pub proof fn law_detuning_is_a_factor<K: Fn(Op, Width, u64, u64) -> u64>(c: &Calc<K>, semitones: F32, key: Option<Key>, base_hz: F32, amount: F32, cents: F32)
    requires
        rounds(c),
        powers_start_at_one(c),
        pitched(c, semitones, key, base_hz, amount).finite(),
        pitched(c, semitones, key, base_hz, amount).value() != 0,
    ensures
        effective(c, semitones, key, base_hz, amount, cents) == effective(
            c,
            semitones,
            key,
            base_hz,
            amount,
            single(0),
        ).mul(c, detuning(c, cents)),
        detuning(c, cents) == detuning(c, cents.clamp(single(0xc2c8_0000), single(0x42c8_0000))),
{
    lemma_undetuned(c, semitones, key, base_hz, amount);
}

/// Detuning by nothing changes nothing.
pub(crate) proof fn lemma_undetuned<K: Fn(Op, Width, u64, u64) -> u64>(c: &Calc<K>, semitones: F32, key: Option<Key>, base_hz: F32, amount: F32)
    requires
        rounds(c),
        powers_start_at_one(c),
        pitched(c, semitones, key, base_hz, amount).finite(),
        pitched(c, semitones, key, base_hz, amount).value() != 0,
    ensures
        effective(c, semitones, key, base_hz, amount, single(0)) == pitched(c, semitones, key, base_hz, amount),
{
    let p = pitched(c, semitones, key, base_hz, amount);
    let zero = single(0);
    let u = one();
    lemma_pow2_pos(149);
    lemma_unit();
    lemma_twelve();
    lemma_nothing(c, single(0x42c8_0000), zero);
    let z = zero.div(c, single(0x42c8_0000));
    lemma_nothing(c, single(0x4140_0000), z);
    assert(detuning(c, zero) == single(0x3f80_0000));
    let r = p.mul(c, single(0x3f80_0000));
    let pv = p.value();
    assert(pv * u <= single(0x7f7f_ffff).value() * u && -(pv * u) <= single(0x7f7f_ffff).value() * u) by {
        law_single_order_is_numeric(p, single(0x7f7f_ffff));
        law_single_order_is_numeric(single(0xff7f_ffff), p);
        assert(single(0xff7f_ffff).value() == -single(0x7f7f_ffff).value());
        let t = single(0x7f7f_ffff).value();
        assert(pv * u <= t * u && -(pv * u) <= t * u) by (nonlinear_arith)
            requires
                -t <= pv <= t,
                u > 0,
        ;
    }
    lemma_in_reach(pv * u, u);
    lemma_mul(c, p, single(0x3f80_0000));
    lemma_exact(r, pv * u, u, p);
    law_single_order_is_numeric(r, p);
    law_single_order_is_numeric(p, r);
    law_single_order_is_numeric(p, zero);
    law_single_order_is_numeric(zero, p);
    assert(single_value(0) == 0);
    assert(r == p);
}

/// Nothing, divided by a positive number, is nothing.
proof fn lemma_nothing<K: Fn(Op, Width, u64, u64) -> u64>(c: &Calc<K>, by: F32, z: F32)
    requires
        rounds(c),
        by.finite(),
        by.key() > 0,
        z.mag() == 0,
    ensures
        z.div(c, by).mag() == 0,
{
    let zero = F32 { bits: 0 };
    assert(single_value(0) == 0);
    law_single_order_is_numeric(zero, by);
    lemma_pow2_pos(149);
    let d = by.value();
    assert(0 <= 0x2_0000_0000_0000_0000 * (one() * d)) by (nonlinear_arith)
        requires
            one() > 0,
            d > 0,
    ;
    lemma_reached(0, d);
    assert(z.value() == 0);
    assert(z.value() * one() == 0) by (nonlinear_arith)
        requires
            z.value() == 0,
    ;
    lemma_div(c, z, by);
    let q = z.div(c, by);
    assert(zero.value() * d == 0) by (nonlinear_arith)
        requires
            zero.value() == 0,
    ;
    lemma_exact(q, 0, d, zero);
    law_single_order_is_numeric(q, zero);
    law_single_order_is_numeric(zero, q);
}

} // verus!
