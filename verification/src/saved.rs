//! How near a saved sound is to the one that was saved, with arithmetic that rounds to
//! nearest.
use crate::calc::{Calc, Op, Width};
use crate::masks::lemma_ones;
use crate::media::{mixed_down, pcm_in_turn, pcm_of, reread, sample_of, span_sum};
use crate::num::{law_single_order_is_numeric, single, single_value, F32};
use crate::rounding::{
    apart, grid, lemma_add, lemma_at_least, lemma_at_most, lemma_div, lemma_exact, lemma_grid, lemma_mul, lemma_of_count,
    lemma_reached, lemma_whole, one, rounds,
};
use crate::spectra::lemma_near;
use vstd::arithmetic::power2::{lemma2_to64, lemma_pow2_adds, lemma_pow2_pos, lemma_pow2_strictly_increases, pow2};
use vstd::prelude::*;

verus! {

/// Whether singles are turned into whole numbers by dropping what is behind the point.
#[verifier::opaque]
pub open spec fn drops_fractions<K: Fn(Op, Width, u64, u64) -> u64>(c: &Calc<K>) -> bool {
    forall|a: F32|
        a.finite() && apart(a.value(), 0) <= 0x1000_0000 * one() ==> #[trigger] a.to_int(c) == if a.value() >= 0 {
            a.value() / one()
        } else {
            -(-a.value() / one())
        }
}

/// A sample within -1..=1, as saving takes it.
pub open spec fn held(s: F32) -> F32 {
    s.limit(single(0xbf80_0000), single(0x3f80_0000))
}

proof fn lemma_held(s: F32)
    requires
        !s.nan(),
    ensures
        held(s).finite(),
        apart(held(s).value(), 0) <= one(),
{
    lemma_ones();
    law_single_order_is_numeric(single(0xbf80_0000), held(s));
    law_single_order_is_numeric(held(s), single(0x3f80_0000));
}

/// The greatest 16-bit number, as a single.
proof fn lemma_full_scale()
    ensures
        single(0x46ff_fe00).finite(),
        single(0x46ff_fe00).value() == 32767 * one(),
{
    lemma2_to64();
    assert(0x46ff_fe00int / 0x80_0000 == 141 && 0x46ff_fe00int % 0x80_0000 == 0x7f_fe00);
    assert(single(0x46ff_fe00).value() == single_value(0x46ff_fe00));
    lemma_pow2_adds(9, 140);
    let t = pow2(140) as int;
    assert(0xff_fe00 * t == 32767 * (0x200 * t)) by (nonlinear_arith);
}

/// The 16-bit number of a sample is near 32768 times the sample.
proof fn lemma_pcm<K: Fn(Op, Width, u64, u64) -> u64>(c: &Calc<K>, s: F32)
    requires
        rounds(c),
        drops_fractions(c),
        !s.nan(),
    ensures
        -32767 <= pcm_of(c, s) <= 32767,
        apart(pcm_of(c, s) * one(), 32768 * held(s).value()) <= 3 * one(),
{
    let u = one();
    lemma_ones();
    lemma_held(s);
    lemma_full_scale();
    let (h, top) = (held(s), single(0x46ff_fe00));
    let (x, n) = (h.value(), h.value() * top.value());
    assert(n == (32767 * x) * u && apart(n, 0) <= 32767 * (u * u) && n <= (32767 * u) * u && -(32767 * u) * u <= n)
        by (nonlinear_arith)
        requires
            n == x * top.value(),
            top.value() == 32767 * u,
            -u <= x <= u,
            u > 0,
    ;
    assert(u * u > 0) by (nonlinear_arith)
        requires
            u > 0,
    ;
    lemma_reached(n, u);
    lemma_mul(c, h, top);
    let m = h.mul(c, top);
    lemma_near(m, n, u);
    lemma_at_most(m, n, u, top);
    lemma_pow2_pos(149);
    lemma_grid(-32767, 150);
    lemma_at_least(m, n, u, grid(-32767, 150));
    let k = 32767 * x;
    assert(0x40_0000 * apart(m.value(), k) <= 32767 * u + 0x2000_0000_0000) by (nonlinear_arith)
        requires
            0x40_0000 * apart(m.value() * u, n) <= apart(n, 0) + 0x2000_0000_0000 * u,
            n == k * u,
            apart(n, 0) <= 32767 * (u * u),
            u > 0,
    {
        let d = apart(m.value(), k);
        assert(d * u == apart(m.value() * u, n));
        assert((0x40_0000 * d) * u <= (32767 * u + 0x2000_0000_0000) * u);
    }
    lemma_pow2_strictly_increases(45, 149);
    lemma_pow2_adds(13, 32);
    lemma2_to64();
    assert(0x2000_0000_0000 <= u);
    let v = m.to_int(c);
    assert(v == if m.value() >= 0 {
        m.value() / u
    } else {
        -(-m.value() / u)
    }) by {
        reveal(drops_fractions);
    }
    assert(-32767 <= v <= 32767 && apart(v * u, m.value()) < u) by (nonlinear_arith)
        requires
            v == if m.value() >= 0 {
                m.value() / u
            } else {
                -(-m.value() / u)
            },
            -(32767 * u) <= m.value() <= 32767 * u,
            u > 0,
    ;
}

/// What a 16-bit number is read as.
proof fn lemma_read<K: Fn(Op, Width, u64, u64) -> u64>(c: &Calc<K>, v: i16)
    requires
        rounds(c),
        -32767 <= v <= 32767,
    ensures
        sample_of(c, v as i32, 16).finite(),
        sample_of(c, v as i32, 16).value() == v * pow2(134),
{
    let (u, g) = (one(), pow2(134) as int);
    lemma_pow2_pos(134);
    lemma_pow2_adds(15, 134);
    lemma2_to64();
    assert(1i64 << 15u32 == 32768i64) by (bit_vector);
    lemma_whole(c, v as i64);
    lemma_whole(c, 32768);
    let (a, b) = (F32::of_int(c, v as i64), F32::of_int(c, 32768));
    let n = a.value() * u;
    assert(b.value() > 0 && n == (v * g) * b.value() && apart(n, 0) <= 32767 * (u * b.value())) by (nonlinear_arith)
        requires
            a.value() == v * u,
            b.value() == 32768 * u,
            n == a.value() * u,
            u == 32768 * g,
            -32767 <= v <= 32767,
            g > 0,
    {
        assert((v * u) * u == (v * g) * (32768 * u));
        assert(u * (32768 * u) == 32768 * (u * u));
        assert(u * u > 0);
    }
    assert(u * b.value() > 0) by (nonlinear_arith)
        requires
            u > 0,
            b.value() > 0,
    ;
    lemma_reached(n, b.value());
    lemma_div(c, a, b);
    lemma_grid(v as int, 135);
    lemma_exact(a.div(c, b), n, b.value(), grid(v as int, 135));
}

/// The mean of two such numbers, as mixing down computes it.
proof fn lemma_mean<K: Fn(Op, Width, u64, u64) -> u64>(c: &Calc<K>, raw: Seq<F32>, k: int, a: int, b: int)
    requires
        rounds(c),
        0 <= k,
        2 * k + 2 <= raw.len(),
        raw[2 * k].finite(),
        raw[2 * k + 1].finite(),
        raw[2 * k].value() == a * pow2(134),
        raw[2 * k + 1].value() == b * pow2(134),
        -32767 <= a <= 32767,
        -32767 <= b <= 32767,
    ensures
        span_sum(c, raw, 2 * k, 2 * k + 2).div(c, F32::of_count(c, 2)).finite(),
        2 * span_sum(c, raw, 2 * k, 2 * k + 2).div(c, F32::of_count(c, 2)).value() == (a + b) * pow2(134),
{
    let (u, g) = (one(), pow2(134) as int);
    lemma_ones();
    lemma_pow2_pos(134);
    lemma_pow2_adds(15, 134);
    lemma_pow2_adds(1, 133);
    lemma2_to64();
    reveal_with_fuel(span_sum, 3);
    let (x, y) = (raw[2 * k], raw[2 * k + 1]);
    assert(apart(a * g, 0) <= 32767 * g && apart(b * g, 0) <= 32767 * g && (a + b) * g == a * g + b * g) by (nonlinear_arith)
        requires
            -32767 <= a <= 32767,
            -32767 <= b <= 32767,
            g > 0,
    ;
    let first = single(0).add(c, x);
    lemma_reached(single(0).value() + x.value(), 1);
    lemma_add(c, single(0), x);
    lemma_exact(first, x.value(), 1, x);
    let sum = first.add(c, y);
    lemma_reached(first.value() + y.value(), 1);
    lemma_add(c, first, y);
    lemma_grid(a + b, 135);
    lemma_exact(sum, first.value() + y.value(), 1, grid(a + b, 135));
    assert(sum == span_sum(c, raw, 2 * k, 2 * k + 2));
    let two = F32::of_count(c, 2);
    lemma_of_count(c, 2);
    lemma_grid(2, 150);
    lemma_exact(two, 2 * u, 1, grid(2, 150));
    let (n, h) = (sum.value() * u, pow2(133) as int);
    assert(n == ((a + b) * h) * (2 * u) && apart(n, 0) <= 65534 * (u * (2 * u)) && 2 * ((a + b) * h) == (a + b) * g)
        by (nonlinear_arith)
        requires
            n == ((a + b) * g) * u,
            g == 2 * h,
            -32767 <= a <= 32767,
            -32767 <= b <= 32767,
            0 < g <= u,
    {
        assert(apart((a + b) * g, 0) <= 65534 * g);
        assert(apart(((a + b) * g) * u, 0) <= (65534 * g) * u);
        assert((65534 * g) * u <= (65534 * u) * u);
        assert(u * (2 * u) == 2 * (u * u));
        assert((65534 * u) * u == 65534 * (u * u));
        assert(u * u > 0);
    }
    assert(u * (2 * u) > 0) by (nonlinear_arith)
        requires
            u > 0,
    ;
    lemma_reached(n, 2 * u);
    lemma_div(c, sum, two);
    lemma_grid(a + b, 134);
    lemma_exact(sum.div(c, two), n, 2 * u, grid(a + b, 134));
}

/// A sound that was saved and is read back has as many samples as before, and each is the
/// mean of both channels, within -1..=1, to three steps of 16-bit numbers.
pub proof fn law_saved_sounds_read_back<K: Fn(Op, Width, u64, u64) -> u64>(c: &Calc<K>, left: Seq<F32>, right: Seq<F32>, i: int)
    requires
        rounds(c),
        drops_fractions(c),
        left.len() == right.len(),
        0 <= i < left.len(),
        !left[i].nan(),
        !right[i].nan(),
    ensures
        reread(c, left, right).len() == left.len(),
        reread(c, left, right)[i].finite(),
        32768 * apart(2 * reread(c, left, right)[i].value(), held(left[i]).value() + held(right[i]).value()) <= 6 * one(),
{
    let all = pcm_in_turn(c, left, right);
    let raw = all.map_values(|v: i16| sample_of(c, v as i32, 16));
    assert(raw.len() == 2 * left.len());
    assert((2 * left.len() + 2 - 1) / 2 == left.len());
    assert((2 * i) / 2 == i && (2 * i) % 2 == 0 && (2 * i + 1) / 2 == i && (2 * i + 1) % 2 == 1);
    lemma_pcm(c, left[i]);
    lemma_pcm(c, right[i]);
    let (a, b) = (pcm_of(c, left[i]), pcm_of(c, right[i]));
    assert(all[2 * i] == a && all[2 * i + 1] == b);
    lemma_read(c, a);
    lemma_read(c, b);
    lemma_mean(c, raw, i, a as int, b as int);
    lemma_pow2_adds(15, 134);
    lemma2_to64();
    assert(i * 2 == 2 * i && (i + 1) * 2 == 2 * i + 2);
    let out = mixed_down(c, raw, 2)[i];
    let (u, g) = (one(), pow2(134) as int);
    assert(32768 * ((a + b) * g) == a * u + b * u) by (nonlinear_arith)
        requires
            u == 32768 * g,
    ;
    assert(2 * out.value() == (a + b) * g);
}

} // verus!
