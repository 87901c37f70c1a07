//! How a grain fades in and out, with arithmetic that rounds to nearest.
use crate::calc::{Calc, Op, Width};
use crate::dsp::{fade_part, grain_env_skewed};
use crate::num::{single, F32};
use crate::reals::{
    about, amount, kept_within, lemma_about_less, lemma_about_over, lemma_about_plus, lemma_about_times, lemma_compared,
    lemma_constant, lemma_constants, lemma_exactly, lemma_greater, lemma_kept, lemma_minus, lemma_quotient, lemma_same,
};
use crate::rounding::rounds;
use crate::seen::lemma_wave_amounts;
use crate::washes::waves_stay_in_range;
use vstd::arithmetic::power2::{lemma2_to64, pow2};
use vstd::prelude::*;

verus! {

/// The parts of a grain that fade in and out.
pub open spec fn attack_of<K: Fn(Op, Width, u64, u64) -> u64>(c: &Calc<K>, shape: F32, skew: F32) -> F32 {
    fade_part(c, shape, single(0x3f80_0000).add(c, skew.clamp(single(0xbf80_0000), single(0x3f80_0000))))
}

pub open spec fn release_of<K: Fn(Op, Width, u64, u64) -> u64>(c: &Calc<K>, shape: F32, skew: F32) -> F32 {
    fade_part(c, shape, single(0x3f80_0000).sub(c, skew.clamp(single(0xbf80_0000), single(0x3f80_0000))))
}

/// Half of the shape, more of it the further the skew leans, and no less than two thousandths.
pub open spec fn fade(shape: real, leaning: real) -> real {
    let part = kept_within(shape, 1real / 100real, 1real) * leaning / 2real;
    if part < 2real / 1000real {
        2real / 1000real
    } else {
        part
    }
}

proof fn lemma_fade<K: Fn(Op, Width, u64, u64) -> u64>(c: &Calc<K>, shape: F32, lean: F32, l: real)
    requires
        rounds(c),
        shape.finite(),
        0real <= l <= 2real,
        about(lean, l, 3real / 0x40_0000real),
    ensures
        about(fade_part(c, shape, lean), fade(amount(shape), l), 16real / 0x40_0000real),
        19real / 10000real <= amount(fade_part(c, shape, lean)) <= 2real,
{
    let u = 1real / 0x40_0000real;
    lemma_constants();
    lemma2_to64();
    let (least, few) = (single(0x3c23_d70a), single(0x3b03_126f));
    lemma_constant(0x3c23_d70a, 0xa3_d70a, 120);
    lemma_constant(0x3b03_126f, 0x83_126f, 118);
    assert(pow2(30) as real == 0x4000_0000real);
    assert(pow2(32) as real == 0x1_0000_0000real);
    assert(amount(least) * 0x4000_0000real == 0xa3_d70areal);
    assert(amount(few) * 0x1_0000_0000real == 0x83_126freal);
    let (unity, two) = (single(0x3f80_0000), single(0x4000_0000));
    lemma_kept(shape, least, unity);
    let s = shape.clamped(least, unity);
    let k = kept_within(amount(shape), 1real / 100real, 1real);
    assert(about(s, k, u));
    lemma_about_times(c, s, k, u, 1real, lean, l, 3real * u, 2real, 10real * u);
    let p = s.mul(c, lean);
    lemma_about_over(c, p, k * l, 10real * u, two, 2real, 1real, 9real * u);
    lemma_greater(p.div(c, two), few);
}

/// A grain fades in and out over the parts that its shape and its skew say: with no skew both
/// are half the shape, and a skew takes from the one what it gives to the other.
pub proof fn law_fades_follow_shape_and_skew<K: Fn(Op, Width, u64, u64) -> u64>(c: &Calc<K>, shape: F32, skew: F32)
    requires
        rounds(c),
        shape.finite(),
        skew.finite(),
    ensures
        ({
            let lean = kept_within(amount(skew), -1real, 1real);
            &&& about(attack_of(c, shape, skew), fade(amount(shape), 1real + lean), 1real / 0x4_0000real)
            &&& about(release_of(c, shape, skew), fade(amount(shape), 1real - lean), 1real / 0x4_0000real)
            &&& 19real / 10000real <= amount(attack_of(c, shape, skew)) <= 2real
            &&& 19real / 10000real <= amount(release_of(c, shape, skew)) <= 2real
        }),
{
    let u = 1real / 0x40_0000real;
    lemma_constants();
    let (unity, minus) = (single(0x3f80_0000), single(0xbf80_0000));
    lemma_kept(skew, minus, unity);
    let k = skew.clamped(minus, unity);
    lemma_about_plus(c, unity, 1real, 0real, k, amount(k), 0real, 2real, 3real * u);
    lemma_about_less(c, unity, 1real, 0real, k, amount(k), 0real, 2real, 3real * u);
    lemma_fade(c, shape, unity.add(c, k), 1real + amount(k));
    lemma_fade(c, shape, unity.sub(c, k), 1real - amount(k));
}

/// Half a turn as singles have it.
pub open spec fn half_turn() -> real {
    0xc9_0fdbreal / 0x40_0000real
}

proof fn lemma_half_turn()
    ensures
        single(0x4049_0fdb).finite(),
        single(0xc049_0fdb).finite(),
        amount(single(0x4049_0fdb)) == half_turn(),
        amount(single(0xc049_0fdb)) == -half_turn(),
{
    lemma2_to64();
    lemma_constant(0x4049_0fdb, 0xc9_0fdb, 128);
    assert(pow2(22) as real == 0x40_0000real);
    assert(amount(single(0x4049_0fdb)) * 0x40_0000real == 0xc9_0fdbreal);
    assert(single(0x4049_0fdb).minus() == single(0xc049_0fdb));
    lemma_minus(single(0x4049_0fdb));
}

/// A raised cosine.
proof fn lemma_raised<K: Fn(Op, Width, u64, u64) -> u64>(c: &Calc<K>, w: F32)
    requires
        rounds(c),
        w.finite() && -1real <= amount(w) <= 1real,
    ensures
        about(
            single(0x3f00_0000).mul(c, single(0x3f80_0000).add(c, w)),
            (1real + amount(w)) / 2real,
            8real / 0x40_0000real,
        ),
        amount(w) == -1real ==> amount(single(0x3f00_0000).mul(c, single(0x3f80_0000).add(c, w))) == 0real,
{
    let u = 1real / 0x40_0000real;
    lemma_constants();
    let (half, unity) = (single(0x3f00_0000), single(0x3f80_0000));
    lemma_about_plus(c, unity, 1real, 0real, w, amount(w), 0real, 2real, 3real * u);
    let s = unity.add(c, w);
    lemma_about_times(c, half, 1real / 2real, 0real, 1real / 2real, s, 1real + amount(w), 3real * u, 2real, 5real * u);
    if amount(w) == -1real {
        lemma_exactly(c, unity, w, single(0));
        let x = amount(s);
        assert(1real / 2real * x == 0real) by (nonlinear_arith)
            requires
                x == 0real,
        ;
        lemma_exactly(c, half, s, single(0));
    }
}

/// In between its fades a grain is as loud as it gets.
pub proof fn law_envelopes_are_open_in_between<K: Fn(Op, Width, u64, u64) -> u64>(c: &Calc<K>, phase: F32, shape: F32, skew: F32)
    requires
        rounds(c),
        shape.finite(),
        skew.finite(),
        phase.finite() && 0real <= amount(phase) <= 1real,
        amount(attack_of(c, shape, skew)) <= amount(phase),
        amount(phase) <= 1real - amount(release_of(c, shape, skew)) - 1real / 0x10_0000real,
    ensures
        grain_env_skewed(c, phase, shape, skew) == single(0x3f80_0000),
{
    let u = 1real / 0x40_0000real;
    lemma_constants();
    law_fades_follow_shape_and_skew(c, shape, skew);
    let (a, r) = (attack_of(c, shape, skew), release_of(c, shape, skew));
    let unity = single(0x3f80_0000);
    lemma_phase(phase);
    lemma_compared(phase, a);
    lemma_about_less(c, unity, 1real, 0real, r, amount(r), 0real, 1real, 3real * u);
    lemma_compared(unity.sub(c, r), phase);
}

/// A phase from zero to one is not clamped.
proof fn lemma_phase(phase: F32)
    requires
        phase.finite(),
        0real <= amount(phase) <= 1real,
    ensures
        phase.clamped(single(0), single(0x3f80_0000)) == phase,
{
    lemma_constants();
    lemma_compared(phase, single(0));
    lemma_compared(single(0x3f80_0000), phase);
}

/// While it fades in, a grain is as loud as a raised cosine that goes from a half turn before
/// its top up to it.
pub proof fn law_grains_fade_in<K: Fn(Op, Width, u64, u64) -> u64>(c: &Calc<K>, phase: F32, shape: F32, skew: F32) -> (angle: F32)
    requires
        rounds(c),
        waves_stay_in_range(c),
        shape.finite(),
        skew.finite(),
        phase.finite() && 0real <= amount(phase) <= 1real,
        amount(phase) < amount(attack_of(c, shape, skew)),
    ensures
        about(
            angle,
            half_turn() * (amount(phase) / amount(attack_of(c, shape, skew)) - 1real),
            1real / 0x1_0000real,
        ),
        about(grain_env_skewed(c, phase, shape, skew), (1real + amount(angle.cos(c))) / 2real, 8real / 0x40_0000real),
        0real <= amount(phase) / amount(attack_of(c, shape, skew)) <= 1real,
        amount(phase) == 0real ==> amount(angle) == -half_turn(),
        amount(phase) == 0real && amount(single(0xc049_0fdb).cos(c)) == -1real ==> amount(
            grain_env_skewed(c, phase, shape, skew),
        ) == 0real,
{
    let u = 1real / 0x40_0000real;
    lemma_constants();
    lemma_half_turn();
    law_fades_follow_shape_and_skew(c, shape, skew);
    let (a, unity, turn) = (attack_of(c, shape, skew), single(0x3f80_0000), single(0x4049_0fdb));
    lemma_phase(phase);
    lemma_compared(phase, a);
    let (p, q) = (amount(phase), amount(a));
    lemma_quotient(p, q);
    let k = p / q;
    assert(0real <= k <= 1real) by (nonlinear_arith)
        requires
            k * q == p,
            0real <= p <= q,
            q > 0real,
    ;
    lemma_about_over(c, phase, p, 0real, a, q, 1real, 3real * u);
    let d = phase.div(c, a);
    lemma_about_less(c, d, k, 3real * u, unity, 1real, 0real, 1real, 6real * u);
    let e = d.sub(c, unity);
    lemma_about_times(c, turn, half_turn(), 0real, 4real, e, k - 1real, 6real * u, 1real, 40real * u);
    let angle = turn.mul(c, e);
    lemma_wave_amounts(c, angle);
    lemma_raised(c, angle.cos(c));
    if p == 0real {
        assert(p == amount(single(0)) * q) by (nonlinear_arith)
            requires
                p == 0real,
                amount(single(0)) == 0real,
        ;
        lemma_exactly(c, phase, a, single(0));
        lemma_exactly(c, d, unity, single(0xbf80_0000));
        let (x, y) = (amount(turn), amount(e));
        assert(x * y == -x) by (nonlinear_arith)
            requires
                y == -1real,
        ;
        lemma_exactly(c, turn, e, single(0xc049_0fdb));
        lemma_same(angle, single(0xc049_0fdb));
    }
    angle
}

/// While it fades out, a grain is as loud as a raised cosine that goes from its top on, a half
/// turn by the grain's end.
pub proof fn law_grains_fade_out<K: Fn(Op, Width, u64, u64) -> u64>(c: &Calc<K>, phase: F32, shape: F32, skew: F32) -> (angle: F32)
    requires
        rounds(c),
        waves_stay_in_range(c),
        shape.finite(),
        skew.finite(),
        phase.finite() && 0real <= amount(phase) <= 1real,
        amount(attack_of(c, shape, skew)) <= amount(phase),
        1real - amount(release_of(c, shape, skew)) + 1real / 0x10_0000real < amount(phase),
    ensures
        about(
            angle,
            half_turn() * ((amount(phase) - 1real + amount(release_of(c, shape, skew))) / amount(release_of(c, shape, skew))),
            1real / 0x100real,
        ),
        about(grain_env_skewed(c, phase, shape, skew), (1real + amount(angle.cos(c))) / 2real, 8real / 0x40_0000real),
        amount(phase) == 1real && amount(single(0x4049_0fdb).cos(c)) == -1real ==> amount(
            grain_env_skewed(c, phase, shape, skew),
        ) == 0real,
{
    let u = 1real / 0x40_0000real;
    lemma_constants();
    lemma_half_turn();
    law_fades_follow_shape_and_skew(c, shape, skew);
    let (a, r) = (attack_of(c, shape, skew), release_of(c, shape, skew));
    let (unity, turn) = (single(0x3f80_0000), single(0x4049_0fdb));
    lemma_phase(phase);
    lemma_compared(phase, a);
    lemma_about_less(c, unity, 1real, 0real, r, amount(r), 0real, 1real, 3real * u);
    lemma_compared(unity.sub(c, r), phase);
    let (p, q) = (amount(phase), amount(r));
    lemma_about_less(c, phase, p, 0real, unity, 1real, 0real, 1real, 2real * u);
    let d = phase.sub(c, unity);
    lemma_about_plus(c, d, p - 1real, 2real * u, r, q, 0real, 2real, 6real * u);
    let e = d.add(c, r);
    let k = p - 1real + q;
    assert(((2real * 1real + 1real) / 0x40_0000real) * q + 6real * u <= (3200real * u) * q) by (nonlinear_arith)
        requires
            u == 1real / 0x40_0000real,
            q >= 19real / 10000real,
    ;
    lemma_about_over(c, e, k, 6real * u, r, q, 1real, 3200real * u);
    let f = e.div(c, r);
    lemma_about_times(c, turn, half_turn(), 0real, 4real, f, k / q, 3200real * u, 1real, 13000real * u);
    let angle = turn.mul(c, f);
    lemma_wave_amounts(c, angle);
    lemma_raised(c, angle.cos(c));
    if p == 1real {
        lemma_exactly(c, phase, unity, single(0));
        lemma_exactly(c, d, r, r);
        lemma_exactly(c, e, r, unity);
        let (x, y) = (amount(turn), amount(f));
        assert(x * y == x) by (nonlinear_arith)
            requires
                y == 1real,
        ;
        lemma_exactly(c, turn, f, turn);
        lemma_same(angle, turn);
    }
    angle
}

} // verus!
