//! Audiovisual paulstretch: extreme time-stretching of samples with their video.
//!
//! The audio side overlaps windowed FFT frames whose magnitudes are kept but whose
//! phases are random, so the spectrum (and therefore the perceived pitch) is preserved
//! while time dissolves into a wash. The video side is slowed by the same factor, with
//! neighbouring frames crossfaded and a decaying accumulator, so that motion smears the
//! way the audio does.
//!
//! Both produce a new derived source, so a stretched sample granulates, sequences,
//! key-quantizes and goes through effects like any other.
use crate::audio::{power_in, power_of, silence, AudioClip};
use crate::calc::{Calc, Op, Width};
use crate::dsp::{drawn_unit, seeded, stirred_by, Rng};
use crate::fft::{fft, hann_of, magnitude, paired, transformed, Cpx};
use crate::figures::{fixed_single, push_single};
use crate::num::{
    double, double_value, law_double_order_is_numeric, law_single_order_is_numeric, single,
    single_value, F32, F64,
};
use crate::rounding::one;
use crate::rounding_double::{
    grid, lemma_at_least, lemma_at_most, lemma_converted, lemma_count, lemma_exact, lemma_grid,
    lemma_mul_small, lemma_of_count, lemma_truncated, rounds_doubles, small, unit,
};
use crate::timeline::Source;
use crate::video::{Frame, VideoClip};
use std::sync::Arc;
use vstd::arithmetic::div_mod::{lemma_div_by_multiple, lemma_div_denominator};
use vstd::arithmetic::power2::{
    lemma2_to64, lemma_pow2_adds, lemma_pow2_pos, lemma_pow2_strictly_increases,
    lemma_pow2_unfold, pow2,
};
use vstd::prelude::*;

verus! {

/// The analysis window (samples) of all but very short clips.
pub const WINDOW: usize = 8192;

/// A requested stretch factor within the supported range.
#[verifier::allow_in_spec]
pub fn clamp_factor(factor: F32) -> F32
    returns
        (if !factor.is_finite() {
            single(0x4100_0000)
        } else {
            factor.limit(single(0x4000_0000), single(0x4280_0000))
        }),
{
    if !factor.is_finite() {
        single(0x4100_0000)
    } else {
        factor.limit(single(0x4000_0000), single(0x4280_0000))
    }
}

/// The window of a clip of `len` samples, as a power of two: the longest that is no
/// longer than the clip, from 256 up to 8192.
pub open spec fn window_bits(len: int, bits: nat) -> nat
    decreases bits,
{
    if bits > 8 && pow2(bits) > len {
        window_bits(len, (bits - 1) as nat)
    } else {
        bits
    }
}

/// The window of a clip of `len` samples.
pub open spec fn window_of(len: int) -> nat {
    pow2(window_bits(len, 13))
}

fn window_for(len: usize) -> (r: usize)
    ensures
        r == window_of(len as int),
        256 <= r <= WINDOW,
        r % 2 == 0,
        8 <= window_bits(len as int, 13) <= 13,
{
    let mut w: usize = WINDOW;
    let ghost mut bits: nat = 13;
    proof {
        lemma2_to64();
    }
    while w > 256 && w > len
        invariant
            w == pow2(bits),
            8 <= bits <= 13,
            256 <= w <= WINDOW,
            w % 2 == 0,
            window_bits(len as int, 13) == window_bits(len as int, bits),
            pow2(8) == 256,
        decreases w,
    {
        proof {
            if bits <= 8 {
                assert(bits == 8);
            }
            lemma_pow2_unfold(bits);
            lemma_pow2_unfold((bits - 1) as nat);
            if bits - 1 > 8 {
                lemma_pow2_strictly_increases(8, (bits - 1) as nat);
            }
            bits = (bits - 1) as nat;
        }
        w = w / 2;
    }
    proof {
        if bits > 8 {
            lemma_pow2_strictly_increases(8, bits);
        }
    }
    w
}

/// How many samples come out: the factor times as many, three minutes at most, and no
/// fewer than a window.
#[verifier::allow_in_spec]
pub fn stretched_len<K: Fn(Op, Width, u64, u64) -> u64>(c: &Calc<K>, len: u64, factor: F64, rate: u32, w: usize) -> usize
    requires
        c.sound(),
    returns
        (if F64::of_count(c, len).mul(c, factor).min(
            double(0x4066_8000_0000_0000).mul(c, F64::of_count(c, rate as u64)),
        ).to_size(c) < w {
            w
        } else {
            F64::of_count(c, len).mul(c, factor).min(
                double(0x4066_8000_0000_0000).mul(c, F64::of_count(c, rate as u64)),
            ).to_size(c)
        }),
{
    if F64::of_count(c, len).mul(c, factor).min(
        double(0x4066_8000_0000_0000).mul(c, F64::of_count(c, rate as u64)),
    ).to_size(c) < w {
        w
    } else {
        F64::of_count(c, len).mul(c, factor).min(
            double(0x4066_8000_0000_0000).mul(c, F64::of_count(c, rate as u64)),
        ).to_size(c)
    }
}

/// Where segment `seg` reads: a fraction of a hop on for each hop that comes out, which
/// is the whole stretch.
#[verifier::allow_in_spec]
pub fn segment_at<K: Fn(Op, Width, u64, u64) -> u64>(c: &Calc<K>, seg: u64, half: u64, factor: F64) -> usize
    requires
        c.sound(),
    returns
        (F64::of_count(c, seg).mul(c, F64::of_count(c, half).div(c, factor)).to_size(c)),
{
    F64::of_count(c, seg).mul(c, F64::of_count(c, half).div(c, factor)).to_size(c)
}

/// A phase of a draw from [0, 1).
#[verifier::allow_in_spec]
pub fn phase_of<K: Fn(Op, Width, u64, u64) -> u64>(c: &Calc<K>, u: F32) -> F32
    requires
        c.sound(),
    returns
        (u.mul(c, single(0x4000_0000)).mul(c, single(0x4049_0fdb))),
{
    u.mul(c, single(0x4000_0000)).mul(c, single(0x4049_0fdb))
}

/// A coefficient with its magnitude and another phase.
#[verifier::allow_in_spec]
pub fn rephased<K: Fn(Op, Width, u64, u64) -> u64>(c: &Calc<K>, z: Cpx, ph: F32) -> Cpx
    requires
        c.sound(),
    returns
        (Cpx {
            re: magnitude(c, z).mul(c, ph.cos(c)),
            im: magnitude(c, z).mul(c, ph.sin(c)),
        }),
{
    Cpx {
        re: magnitude(c, z).mul(c, ph.cos(c)),
        im: magnitude(c, z).mul(c, ph.sin(c)),
    }
}

/// The mirror image of a coefficient.
#[verifier::allow_in_spec]
pub fn conjugate(z: Cpx) -> Cpx
    returns
        (Cpx { re: z.re, im: z.im.minus() }),
{
    Cpx { re: z.re, im: z.im.minus() }
}

/// A coefficient without phase.
#[verifier::allow_in_spec]
pub fn phaseless<K: Fn(Op, Width, u64, u64) -> u64>(c: &Calc<K>, z: Cpx) -> Cpx
    requires
        c.sound(),
    returns
        (Cpx { re: magnitude(c, z), im: single(0) }),
{
    Cpx { re: magnitude(c, z), im: single(0) }
}

/// What two overlapping windows sum to at sample `p`.
#[verifier::allow_in_spec]
pub fn overlap<K: Fn(Op, Width, u64, u64) -> u64>(c: &Calc<K>, p: u64, w: u64) -> F32
    requires
        c.sound(),
    returns
        (single(0x3f00_0000).mul(
            c,
            single(0x3f80_0000).add(
                c,
                single(0x40c9_0fdb).mul(c, F32::of_count(c, p)).div(c, F32::of_count(c, w)).cos(c).mul(
                    c,
                    single(0x40c9_0fdb).mul(c, F32::of_count(c, p)).div(c, F32::of_count(c, w)).cos(c),
                ),
            ),
        )),
{
    single(0x3f00_0000).mul(
        c,
        single(0x3f80_0000).add(
            c,
            single(0x40c9_0fdb).mul(c, F32::of_count(c, p)).div(c, F32::of_count(c, w)).cos(c).mul(
                c,
                single(0x40c9_0fdb).mul(c, F32::of_count(c, p)).div(c, F32::of_count(c, w)).cos(c),
            ),
        ),
    )
}

/// The window of `w` samples from `at`, under a Hann window; silence past the end.
pub open spec fn segment_in<K: Fn(Op, Width, u64, u64) -> u64>(c: &Calc<K>, input: Seq<F32>, at: int, w: nat) -> Seq<F32> {
    Seq::new(
        w,
        |i: int|
            (if at + i < input.len() {
                input[at + i]
            } else {
                single(0)
            }).mul(c, hann_of(c, i as u64, w as u64)),
    )
}

/// The phase of coefficient `k` of segment `seg`.
pub open spec fn segment_phase<K: Fn(Op, Width, u64, u64) -> u64>(c: &Calc<K>, seg: u64, k: int) -> F32 {
    phase_of(c, drawn_unit(stirred_by(seeded(0x9A75_57E7u64 ^ seg), (k - 1) as nat)))
}

/// A spectrum with its magnitudes and fresh phases, mirrored so that the inverse
/// transform is real.
pub open spec fn scrambled<K: Fn(Op, Width, u64, u64) -> u64>(c: &Calc<K>, z: Seq<Cpx>, seg: u64) -> Seq<Cpx> {
    let half = z.len() / 2;
    Seq::new(
        z.len(),
        |k: int|
            if k == 0 || k == half {
                phaseless(c, z[k])
            } else if k < half {
                rephased(c, z[k], segment_phase(c, seg, k))
            } else {
                conjugate(rephased(c, z[z.len() - k], segment_phase(c, seg, z.len() - k)))
            },
    )
}

/// What a segment gives, before the window that it fades in and out with.
pub open spec fn segment_out<K: Fn(Op, Width, u64, u64) -> u64>(c: &Calc<K>, input: Seq<F32>, at: int, bits: nat, seg: u64) -> Seq<F32> {
    let w = pow2(bits);
    let z = transformed(
        c,
        paired(segment_in(c, input, at, w), Seq::new(w, |i: int| single(0))),
        bits,
        false,
    );
    transformed(c, scrambled(c, z, seg), bits, true).map_values(|z: Cpx| z.re)
}

/// What segment `seg` adds to sample `p` of the output.
pub open spec fn share<K: Fn(Op, Width, u64, u64) -> u64>(c: &Calc<K>, input: Seq<F32>, factor: F64, bits: nat, seg: int, p: int) -> F32 {
    let w = pow2(bits) as int;
    let at = segment_at(c, seg as u64, (w / 2) as u64, factor);
    let i = p - seg * (w / 2);
    segment_out(c, input, at as int, bits, seg as u64)[i].mul(c, hann_of(c, i as u64, w as u64))
}

/// Sample `p` of the wash after the segments below `n`: of these, two reach it.
pub open spec fn washed<K: Fn(Op, Width, u64, u64) -> u64>(c: &Calc<K>, input: Seq<F32>, factor: F64, bits: nat, p: int, n: int) -> F32 {
    let s = p / (pow2(bits) as int / 2);
    let first = if s >= 1 && s - 1 < n {
        single(0).add(c, share(c, input, factor, bits, s - 1, p))
    } else {
        single(0)
    };
    if s < n {
        first.add(c, share(c, input, factor, bits, s, p))
    } else {
        first
    }
}

/// The wash of a clip, at an even level.
pub open spec fn wash<K: Fn(Op, Width, u64, u64) -> u64>(c: &Calc<K>, input: Seq<F32>, factor: F64, rate: u32) -> Seq<F32> {
    let bits = window_bits(input.len() as int, 13);
    let w = pow2(bits);
    let n = stretched_len(c, input.len() as u64, factor, rate, w as usize);
    Seq::new(
        n as nat,
        |p: int|
            washed(c, input, factor, bits, p, p / (w as int / 2) + 1).div(
                c,
                overlap(c, p as u64, w as u64),
            ),
    )
}

/// The root of the mean square.
pub open spec fn rms_of<K: Fn(Op, Width, u64, u64) -> u64>(c: &Calc<K>, v: Seq<F32>) -> F32 {
    power_of(c, single(0), v).div(
        c,
        F32::of_count(
            c,
            (if v.len() < 1 {
                1
            } else {
                v.len()
            }) as u64,
        ),
    ).sqrt(c)
}

/// The gain from one loudness to another.
#[verifier::allow_in_spec]
pub fn matching_gain<K: Fn(Op, Width, u64, u64) -> u64>(c: &Calc<K>, ri: F32, ro: F32) -> F32
    requires
        c.sound(),
    returns
        (ri.div(c, ro).min(single(0x4100_0000))),
{
    ri.div(c, ro).min(single(0x4100_0000))
}

/// A sample at a gain.
#[verifier::allow_in_spec]
pub fn gained<K: Fn(Op, Width, u64, u64) -> u64>(c: &Calc<K>, s: F32, g: F32) -> F32
    requires
        c.sound(),
    returns
        (s.mul(c, g).limit(single(0xbf80_0000), single(0x3f80_0000))),
{
    s.mul(c, g).limit(single(0xbf80_0000), single(0x3f80_0000))
}

/// A wash brought to the loudness of what it was made of.
pub open spec fn levelled<K: Fn(Op, Width, u64, u64) -> u64>(c: &Calc<K>, input: Seq<F32>, out: Seq<F32>) -> Seq<F32> {
    let ri = rms_of(c, input);
    let ro = rms_of(c, out);
    if single(0x3089_705f).lt(ro) && single(0x3089_705f).lt(ri) {
        out.map_values(|s: F32| gained(c, s, matching_gain(c, ri, ro)))
    } else {
        out
    }
}

/// A stretched clip's samples.
pub open spec fn stretched<K: Fn(Op, Width, u64, u64) -> u64>(c: &Calc<K>, input: Seq<F32>, factor: F32, rate: u32) -> Seq<F32> {
    if input.len() == 0 {
        seq![]
    } else {
        levelled(c, input, wash(c, input, clamp_factor(factor).to_f64(c), rate))
    }
}

fn segment_window<K: Fn(Op, Width, u64, u64) -> u64>(c: &Calc<K>, input: &Vec<F32>, at: usize, w: usize) -> (r: Vec<F32>)
    requires
        c.sound(),
    ensures
        r@ == segment_in(c, input@, at as int, w as nat),
{
    let mut re: Vec<F32> = Vec::new();
    let mut i: usize = 0;
    while i < w
        invariant
            c.sound(),
            i <= w,
            re@ =~= segment_in(c, input@, at as int, w as nat).take(i as int),
        decreases w - i,
    {
        let s: F32 = if at < input.len() && i < input.len() - at {
            input[at + i]
        } else {
            single(0)
        };
        re.push(s.mul(c, hann_of(c, i as u64, w as u64)));
        i += 1;
    }
    assert(re@ =~= segment_in(c, input@, at as int, w as nat));
    re
}

fn scramble<K: Fn(Op, Width, u64, u64) -> u64>(c: &Calc<K>, re: &mut Vec<F32>, im: &mut Vec<F32>, seg: u64)
    requires
        c.sound(),
        old(re)@.len() == old(im)@.len(),
        old(re)@.len() >= 2,
        old(re)@.len() % 2 == 0,
    ensures
        final(re)@.len() == old(re)@.len(),
        final(im)@.len() == old(im)@.len(),
        paired(final(re)@, final(im)@) == scrambled(c, paired(old(re)@, old(im)@), seg),
{
    let w: usize = re.len();
    let half: usize = w / 2;
    let ghost z = paired(re@, im@);
    let ghost want = scrambled(c, z, seg);
    let mut rng: Rng = Rng::new(0x9A75_57E7u64 ^ seg);
    let mut k: usize = 1;
    while k < half
        invariant
            c.sound(),
            1 <= k <= half,
            w == 2 * half,
            re@.len() == w,
            im@.len() == w,
            z.len() == w,
            want == scrambled(c, z, seg),
            rng@ == stirred_by(seeded(0x9A75_57E7u64 ^ seg), (k - 1) as nat),
            forall|j: int|
                0 <= j < w ==> #[trigger] paired(re@, im@)[j] == if 1 <= j < k || w - k < j {
                    want[j]
                } else {
                    z[j]
                },
        decreases half - k,
    {
        let ghost before = paired(re@, im@);
        assert(before[k as int] == z[k as int]);
        assert(before[w - k] == z[w - k]);
        let ph: F32 = phase_of(c, rng.next_f32());
        let v: Cpx = rephased(c, Cpx { re: re[k], im: im[k] }, ph);
        let m: Cpx = conjugate(v);
        re.set(k, v.re);
        im.set(k, v.im);
        re.set(w - k, m.re);
        im.set(w - k, m.im);
        proof {
            assert(ph == segment_phase(c, seg, k as int));
            assert(want[k as int] == v);
            assert(want[w - k] == m);
            assert forall|j: int| 0 <= j < w implies #[trigger] paired(re@, im@)[j] == if 1 <= j < k
                + 1 || w - (k + 1) < j {
                want[j]
            } else {
                z[j]
            } by {
                if j != k && j != w - k {
                    assert(paired(re@, im@)[j] == before[j]);
                }
            }
        }
        k += 1;
    }
    let ghost before = paired(re@, im@);
    assert(before[0] == z[0]);
    assert(before[half as int] == z[half as int]);
    let first: Cpx = phaseless(c, Cpx { re: re[0], im: im[0] });
    let middle: Cpx = phaseless(c, Cpx { re: re[half], im: im[half] });
    re.set(0, first.re);
    im.set(0, first.im);
    re.set(half, middle.re);
    im.set(half, middle.im);
    proof {
        assert forall|j: int| 0 <= j < w implies #[trigger] paired(re@, im@)[j] == want[j] by {
            if j != 0 && j != half {
                assert(paired(re@, im@)[j] == before[j]);
            }
        }
        assert(paired(re@, im@) =~= want);
    }
}

fn segment<K: Fn(Op, Width, u64, u64) -> u64>(c: &Calc<K>, input: &Vec<F32>, at: usize, w: usize, seg: u64) -> (r: Vec<F32>)
    requires
        c.sound(),
        256 <= w <= WINDOW,
        w % 2 == 0,
        w == window_of(input@.len() as int),
    ensures
        r@ == segment_out(c, input@, at as int, window_bits(input@.len() as int, 13), seg),
        r@.len() == w,
{
    let ghost bits = window_bits(input@.len() as int, 13);
    let mut re: Vec<F32> = segment_window(c, input, at, w);
    let mut im: Vec<F32> = silence(w);
    assert(re@.len() == pow2(bits));
    let ghost z = transformed(c, paired(re@, im@), bits, false);
    fft(c, &mut re, &mut im, false);
    assert(paired(re@, im@) == z);
    scramble(c, &mut re, &mut im, seg);
    let ghost y = scrambled(c, z, seg);
    assert(re@.len() == pow2(bits));
    fft(c, &mut re, &mut im, true);
    proof {
        let o = transformed(c, y, bits, true);
        assert(paired(re@, im@) == o);
        assert forall|k: int| 0 <= k < re@.len() implies re@[k] == o[k].re by {
            assert(paired(re@, im@)[k].re == re@[k]);
        }
        assert(o.len() == re@.len());
        assert(re@ =~= o.map_values(|z: Cpx| z.re));
    }
    re
}

pub(crate) proof fn lemma_segment_reach(p: int, seg: int, half: int)
    requires
        half > 0,
        p >= 0,
        seg >= 0,
    ensures
        seg * half <= p < seg * half + 2 * half <==> (p / half == seg || p / half == seg + 1),
{
    let s = p / half;
    vstd::arithmetic::div_mod::lemma_fundamental_div_mod(p, half);
    assert(seg * half <= p < seg * half + 2 * half <==> (s == seg || s == seg + 1))
        by (nonlinear_arith)
        requires
            half > 0,
            p == half * s + p % half,
            0 <= p % half < half,
    ;
}

fn lay_segment<K: Fn(Op, Width, u64, u64) -> u64>(c: &Calc<K>, input: &Vec<F32>, out: &mut Vec<F32>, factor: F64, w: usize, seg: usize)
    requires
        c.sound(),
        256 <= w <= WINDOW,
        w % 2 == 0,
        w == window_of(input@.len() as int),
        seg * (w / 2) <= old(out)@.len(),
        forall|p: int|
            0 <= p < old(out)@.len() ==> #[trigger] old(out)@[p] == washed(
                c,
                input@,
                factor,
                window_bits(input@.len() as int, 13),
                p,
                seg as int,
            ),
    ensures
        final(out)@.len() == old(out)@.len(),
        forall|p: int|
            0 <= p < old(out)@.len() ==> #[trigger] final(out)@[p] == washed(
                c,
                input@,
                factor,
                window_bits(input@.len() as int, 13),
                p,
                seg + 1,
            ),
{
    let n: usize = out.len();
    let half: usize = w / 2;
    let at: usize = segment_at(c, seg as u64, half as u64, factor);
    let ghost bits = window_bits(input@.len() as int, 13);
    let re: Vec<F32> = segment(c, input, at, w, seg as u64);
    let base: usize = seg * half;
    let ghost before = out@;
    let mut i: usize = 0;
    while i < w
        invariant
            c.sound(),
            i <= w,
            w == 2 * half,
            half > 0,
            w == pow2(bits),
            n == out@.len(),
            n == before.len(),
            base == seg * half,
            base <= n,
            re@.len() == w,
            at == segment_at(c, seg as u64, half as u64, factor),
            re@ == segment_out(c, input@, at as int, bits, seg as u64),
            forall|p: int|
                0 <= p < n ==> #[trigger] out@[p] == if base <= p < base + i {
                    before[p].add(c, share(c, input@, factor, bits, seg as int, p))
                } else {
                    before[p]
                },
        decreases w - i,
    {
        if i < n - base {
            let v: F32 = out[base + i].add(c, re[i].mul(c, hann_of(c, i as u64, w as u64)));
            out.set(base + i, v);
        }
        i += 1;
    }
    proof {
        assert forall|p: int| 0 <= p < n implies #[trigger] out@[p] == washed(
            c,
            input@,
            factor,
            bits,
            p,
            seg + 1,
        ) by {
            lemma_segment_reach(p, seg as int, half as int);
            assert(before[p] == washed(c, input@, factor, bits, p, seg as int));
            assert(pow2(bits) as int / 2 == half);
        }
    }
}

fn wash_of<K: Fn(Op, Width, u64, u64) -> u64>(c: &Calc<K>, input: &Vec<F32>, factor: F64, rate: u32) -> (r: Vec<F32>)
    requires
        c.sound(),
    ensures
        r@ == wash(c, input@, factor, rate),
{
    let w: usize = window_for(input.len());
    let half: usize = w / 2;
    let n: usize = stretched_len(c, input.len() as u64, factor, rate, w);
    let mut out: Vec<F32> = silence(n);
    let ghost bits = window_bits(input@.len() as int, 13);
    assert(n / half < usize::MAX) by (nonlinear_arith)
        requires
            half >= 2,
            n <= usize::MAX,
    ;
    let n_segs: usize = n / half + 1;
    proof {
        assert forall|p: int| 0 <= p < n implies #[trigger] out@[p] == washed(
            c,
            input@,
            factor,
            bits,
            p,
            0,
        ) by {
            vstd::arithmetic::div_mod::lemma_div_pos_is_pos(p, half as int);
        }
    }
    let mut seg: usize = 0;
    while seg < n_segs
        invariant
            c.sound(),
            seg <= n_segs,
            256 <= w <= WINDOW,
            w % 2 == 0,
            half == w / 2,
            w == window_of(input@.len() as int),
            bits == window_bits(input@.len() as int, 13),
            out@.len() == n,
            n_segs == n / half + 1,
            forall|p: int|
                0 <= p < n ==> #[trigger] out@[p] == washed(
                    c,
                    input@,
                    factor,
                    bits,
                    p,
                    seg as int,
                ),
        decreases n_segs - seg,
    {
        assert(seg * half <= n) by (nonlinear_arith)
            requires
                seg <= n / half,
                half > 0,
        ;
        lay_segment(c, input, &mut out, factor, w, seg);
        seg += 1;
    }
    let ghost laid = out@;
    let mut p: usize = 0;
    while p < n
        invariant
            c.sound(),
            p <= n,
            out@.len() == n,
            laid.len() == n,
            forall|j: int|
                0 <= j < n ==> #[trigger] out@[j] == if j < p {
                    laid[j].div(c, overlap(c, j as u64, w as u64))
                } else {
                    laid[j]
                },
        decreases n - p,
    {
        let v: F32 = out[p].div(c, overlap(c, p as u64, w as u64));
        out.set(p, v);
        p += 1;
    }
    proof {
        let want = wash(c, input@, factor, rate);
        assert forall|j: int| 0 <= j < n implies out@[j] == want[j] by {
            assert(laid[j] == washed(c, input@, factor, bits, j, n_segs as int));
            vstd::arithmetic::div_mod::lemma_div_is_ordered(j, n as int, half as int);
            assert(pow2(bits) as int / 2 == half);
        }
        assert(out@ =~= want);
    }
    out
}

fn rms<K: Fn(Op, Width, u64, u64) -> u64>(c: &Calc<K>, v: &Vec<F32>) -> (r: F32)
    requires
        c.sound(),
    ensures
        r == rms_of(c, v@),
{
    let n: u64 = if v.len() < 1 {
        1
    } else {
        v.len() as u64
    };
    power_in(c, single(0), v.as_slice()).div(c, F32::of_count(c, n)).sqrt(c)
}

/// Paulstretch `clip` by `factor` (2..64). Pitch and spectrum are preserved; time is
/// smeared. One input and factor give one result.
pub fn paulstretch<K: Fn(Op, Width, u64, u64) -> u64>(c: &Calc<K>, clip: &AudioClip, factor: F32) -> (r: AudioClip)
    requires
        c.sound(),
    ensures
        r.sample_rate == if clip.sample_rate < 1 {
            1
        } else {
            clip.sample_rate
        },
        r.samples@ == stretched(c, clip.samples@, factor, r.sample_rate),
{
    let f: F64 = clamp_factor(factor).to_f64(c);
    let sr: u32 = if clip.sample_rate < 1 {
        1
    } else {
        clip.sample_rate
    };
    if clip.samples.len() == 0 {
        return AudioClip::new(Vec::new(), sr);
    }
    let mut out: Vec<F32> = wash_of(c, &clip.samples, f, sr);
    let ri: F32 = rms(c, &clip.samples);
    let ro: F32 = rms(c, &out);
    if single(0x3089_705f).lt(ro) && single(0x3089_705f).lt(ri) {
        let g: F32 = matching_gain(c, ri, ro);
        let n: usize = out.len();
        let ghost before = out@;
        let mut i: usize = 0;
        while i < n
            invariant
                c.sound(),
                i <= n,
                out@.len() == n,
                before.len() == n,
                forall|j: int|
                    0 <= j < n ==> #[trigger] out@[j] == if j < i {
                        gained(c, before[j], g)
                    } else {
                        before[j]
                    },
            decreases n - i,
        {
            let v: F32 = gained(c, out[i], g);
            out.set(i, v);
            i += 1;
        }
        assert(out@ =~= levelled(c, clip.samples@, before));
    }
    AudioClip::new(out, sr)
}

// ------------------------------------------------------------------- video

/// How many frames come out, at twelve a second and three minutes at most.
#[verifier::allow_in_spec]
pub fn slowed_frames<K: Fn(Op, Width, u64, u64) -> u64>(c: &Calc<K>, secs: F64, factor: F64) -> usize
    requires
        c.sound(),
    returns
        (if secs.mul(c, factor).min(double(0x4066_8000_0000_0000)).mul(c, single(0x4140_0000).to_f64(c)).to_size(c) < 1 {
            1
        } else {
            secs.mul(c, factor).min(double(0x4066_8000_0000_0000)).mul(c, single(0x4140_0000).to_f64(c)).to_size(c)
        }),
{
    if secs.mul(c, factor).min(double(0x4066_8000_0000_0000)).mul(c, single(0x4140_0000).to_f64(c)).to_size(c) < 1 {
        1
    } else {
        secs.mul(c, factor).min(double(0x4066_8000_0000_0000)).mul(c, single(0x4140_0000).to_f64(c)).to_size(c)
    }
}

/// Where frame `f` reads, in frames of the source.
#[verifier::allow_in_spec]
pub fn read_at<K: Fn(Op, Width, u64, u64) -> u64>(c: &Calc<K>, f: u64, factor: F64, fps: F32, last: u64) -> F64
    requires
        c.sound(),
    returns
        (F64::of_count(c, f).div(c, single(0x4140_0000).to_f64(c)).div(c, factor).mul(c, fps.to_f64(c)).min(
            F64::of_count(c, last),
        )),
{
    F64::of_count(c, f).div(c, single(0x4140_0000).to_f64(c)).div(c, factor).mul(c, fps.to_f64(c)).min(
        F64::of_count(c, last),
    )
}

/// The frame before a place, no later than the last.
#[verifier::allow_in_spec]
pub fn frame_before<K: Fn(Op, Width, u64, u64) -> u64>(c: &Calc<K>, at: F64, last: u64) -> u64
    requires
        c.sound(),
    returns
        (if at.floor(c).to_u64(c) < last {
            at.floor(c).to_u64(c)
        } else {
            last
        }),
{
    if at.floor(c).to_u64(c) < last {
        at.floor(c).to_u64(c)
    } else {
        last
    }
}

/// How far a place is past the frame before it.
#[verifier::allow_in_spec]
pub fn part_past<K: Fn(Op, Width, u64, u64) -> u64>(c: &Calc<K>, at: F64, i0: u64) -> F32
    requires
        c.sound(),
    returns
        (at.sub(c, F64::of_count(c, i0)).to_f32(c)),
{
    at.sub(c, F64::of_count(c, i0)).to_f32(c)
}

/// Two bytes crossfaded.
#[verifier::allow_in_spec]
pub fn crossed<K: Fn(Op, Width, u64, u64) -> u64>(c: &Calc<K>, a: u8, b: u8, frac: F32) -> F32
    requires
        c.sound(),
    returns
        (F32::of_count(c, a as u64).mul(c, single(0x3f80_0000).sub(c, frac)).add(
            c,
            F32::of_count(c, b as u64).mul(c, frac),
        )),
{
    F32::of_count(c, a as u64).mul(c, single(0x3f80_0000).sub(c, frac)).add(
        c,
        F32::of_count(c, b as u64).mul(c, frac),
    )
}

/// The accumulator after one more value.
#[verifier::allow_in_spec]
pub fn smeared<K: Fn(Op, Width, u64, u64) -> u64>(c: &Calc<K>, acc: F32, x: F32) -> F32
    requires
        c.sound(),
    returns
        (acc.mul(c, single(0x3f4c_cccd)).add(c, x.mul(c, single(0x3f80_0000).sub(c, single(0x3f4c_cccd))))),
{
    acc.mul(c, single(0x3f4c_cccd)).add(c, x.mul(c, single(0x3f80_0000).sub(c, single(0x3f4c_cccd))))
}

/// The accumulator as a byte.
#[verifier::allow_in_spec]
pub fn smear_byte<K: Fn(Op, Width, u64, u64) -> u64>(c: &Calc<K>, acc: F32) -> u8
    requires
        c.sound(),
    returns
        (acc.round(c).limit(single(0), single(0x437f_0000)).to_u8(c)),
{
    acc.round(c).limit(single(0), single(0x437f_0000)).to_u8(c)
}

/// The two frames that frame `f` lies between, and how far along.
pub open spec fn read_between<K: Fn(Op, Width, u64, u64) -> u64>(c: &Calc<K>, f: int, factor: F64, fps: F32, n: int) -> (int, int, F32) {
    let at = read_at(c, f as u64, factor, fps, (n - 1) as u64);
    let i0 = frame_before(c, at, (n - 1) as u64) as int;
    let i1 = if i0 + 1 < n {
        i0 + 1
    } else {
        n - 1
    };
    (i0, i1, part_past(c, at, i0 as u64))
}

/// Byte `i` of the accumulator after the first `n` frames.
pub open spec fn smear_after<K: Fn(Op, Width, u64, u64) -> u64>(c: &Calc<K>, v: VideoClip, factor: F64, i: int, n: nat) -> F32
    decreases n,
{
    if n == 0 {
        F32::of_count(c, v.frames@[0].data@[i] as u64)
    } else {
        let (i0, i1, frac) = read_between(c, n - 1, factor, v.fps, v.frames@.len() as int);
        smeared(
            c,
            smear_after(c, v, factor, i, (n - 1) as nat),
            crossed(c, v.frames@[i0].data@[i], v.frames@[i1].data@[i], frac),
        )
    }
}

/// How many bytes a frame of a video's size has.
pub open spec fn frame_bytes(v: VideoClip) -> int {
    v.frames@[0].width * v.frames@[0].height * 4
}

/// How many bytes are smeared: as many as a frame has, or fewer where the first frame
/// lacks some.
pub open spec fn smeared_bytes(v: VideoClip) -> int {
    if frame_bytes(v) < v.frames@[0].data@.len() {
        frame_bytes(v)
    } else {
        v.frames@[0].data@.len() as int
    }
}

/// The bytes of frame `f`: what is smeared, and black where nothing is; alpha stays solid.
pub open spec fn smeared_data<K: Fn(Op, Width, u64, u64) -> u64>(c: &Calc<K>, v: VideoClip, factor: F64, f: int) -> Seq<u8> {
    Seq::new(
        frame_bytes(v) as nat,
        |i: int|
            if i % 4 == 3 {
                255
            } else if i < smeared_bytes(v) {
                smear_byte(c, smear_after(c, v, factor, i, (f + 1) as nat))
            } else {
                0
            },
    )
}

/// Whether a video's frames are within 32-bit indices, and none lacks a byte that is smeared.
pub open spec fn even_frames(v: VideoClip) -> bool {
    &&& frame_bytes(v) <= u32::MAX
    &&& forall|i: int|
        0 <= i < v.frames@.len() ==> (#[trigger] v.frames@[i]).data@.len() >= smeared_bytes(v)
}

/// Whether a video is another slowed down.
pub open spec fn is_slowed<K: Fn(Op, Width, u64, u64) -> u64>(c: &Calc<K>, v: VideoClip, factor: F32, r: VideoClip) -> bool {
    let by_factor = clamp_factor(factor).to_f64(c);
    &&& r.fps == single(0x4140_0000)
    &&& r.frames@.len() == if v.plays() {
        slowed_frames(c, v.lasts(c), by_factor)
    } else {
        0
    }
    &&& forall|f: int|
        0 <= f < r.frames@.len() ==> (#[trigger] r.frames@[f]).width == v.frames@[0].width
            && r.frames@[f].height == v.frames@[0].height && r.frames@[f].data@ == smeared_data(
            c,
            v,
            by_factor,
            f,
        )
}

fn smear_on<K: Fn(Op, Width, u64, u64) -> u64>(c: &Calc<K>, video: &VideoClip, factor: F64, acc: &mut Vec<F32>, f: usize)
    requires
        c.sound(),
        video.frames@.len() > 0,
        even_frames(*video),
        old(acc)@.len() == smeared_bytes(*video),
        forall|i: int|
            0 <= i < old(acc)@.len() ==> #[trigger] old(acc)@[i] == smear_after(
                c,
                *video,
                factor,
                i,
                f as nat,
            ),
    ensures
        final(acc)@.len() == old(acc)@.len(),
        forall|i: int|
            0 <= i < old(acc)@.len() ==> #[trigger] final(acc)@[i] == smear_after(
                c,
                *video,
                factor,
                i,
                (f + 1) as nat,
            ),
{
    let n: usize = video.frames.len();
    let at: F64 = read_at(c, f as u64, factor, video.fps, (n - 1) as u64);
    let i0: usize = frame_before(c, at, (n - 1) as u64) as usize;
    let i1: usize = if i0 < n - 1 {
        i0 + 1
    } else {
        n - 1
    };
    let frac: F32 = part_past(c, at, i0 as u64);
    let m: usize = acc.len();
    assert(video.frames@[i0 as int].data@.len() >= m);
    assert(video.frames@[i1 as int].data@.len() >= m);
    let ghost before = acc@;
    let mut i: usize = 0;
    while i < m
        invariant
            c.sound(),
            i <= m,
            acc@.len() == m,
            before.len() == m,
            i0 < n,
            i1 < n,
            n == video.frames@.len(),
            video.frames@[i0 as int].data@.len() >= m,
            video.frames@[i1 as int].data@.len() >= m,
            read_between(c, f as int, factor, video.fps, n as int) == (i0 as int, i1 as int, frac),
            forall|j: int|
                0 <= j < m ==> #[trigger] before[j] == smear_after(c, *video, factor, j, f as nat),
            forall|j: int|
                0 <= j < m ==> #[trigger] acc@[j] == smear_after(
                    c,
                    *video,
                    factor,
                    j,
                    if j < i {
                        (f + 1) as nat
                    } else {
                        f as nat
                    },
                ),
        decreases m - i,
    {
        let x: F32 = crossed(c, video.frames[i0].data[i], video.frames[i1].data[i], frac);
        let v: F32 = smeared(c, acc[i], x);
        acc.set(i, v);
        i += 1;
    }
}

fn smear_frame<K: Fn(Op, Width, u64, u64) -> u64>(c: &Calc<K>, acc: &Vec<F32>, bytes: usize) -> (r: Vec<u8>)
    requires
        c.sound(),
    ensures
        r@ == Seq::new(
            bytes as nat,
            |i: int|
                if i % 4 == 3 {
                    255u8
                } else if i < acc@.len() {
                    smear_byte(c, acc@[i])
                } else {
                    0
                },
        ),
{
    let mut data: Vec<u8> = Vec::new();
    let mut i: usize = 0;
    while i < bytes
        invariant
            c.sound(),
            i <= bytes,
            data@.len() == i,
            forall|j: int|
                0 <= j < i ==> #[trigger] data@[j] == if j % 4 == 3 {
                    255u8
                } else if j < acc@.len() {
                    smear_byte(c, acc@[j])
                } else {
                    0
                },
        decreases bytes - i,
    {
        data.push(
            if i % 4 == 3 {
                255
            } else if i < acc.len() {
                smear_byte(c, acc[i])
            } else {
                0
            },
        );
        i += 1;
    }
    data
}

/// Slow `video` down by `factor` with neighbouring frames crossfaded and a decaying
/// accumulator, the visual counterpart of the audio wash.
pub fn stretch_video<K: Fn(Op, Width, u64, u64) -> u64>(c: &Calc<K>, video: &VideoClip, factor: F32) -> (r: VideoClip)
    requires
        c.sound(),
        video.plays() ==> even_frames(*video),
    ensures
        is_slowed(c, *video, factor, r),
        forall|f: int| 0 <= f < r.frames@.len() ==> (#[trigger] r.frames@[f]).wf(),
        video.wf() ==> r.wf(),
{
    let by_factor: F64 = clamp_factor(factor).to_f64(c);
    if video.frames.len() == 0 || video.fps.le(single(0)) {
        return VideoClip { frames: Vec::new(), fps: single(0x4140_0000) };
    }
    let n: usize = slowed_frames(c, video.duration(c), by_factor);
    let width: u32 = video.frames[0].width;
    let height: u32 = video.frames[0].height;
    proof {
        let area = width * height;
        assert(area * 4 <= u32::MAX && area >= 0) by (nonlinear_arith)
            requires
                area == width * height,
                width * height * 4 <= u32::MAX,
        ;
    }
    let bytes: usize = width as usize * height as usize * 4;
    let m: usize = if bytes < video.frames[0].data.len() {
        bytes
    } else {
        video.frames[0].data.len()
    };
    let mut acc: Vec<F32> = Vec::new();
    let mut i: usize = 0;
    while i < m
        invariant
            c.sound(),
            i <= m,
            video.frames@.len() > 0,
            m <= video.frames@[0].data@.len(),
            acc@.len() == i,
            forall|j: int|
                0 <= j < i ==> #[trigger] acc@[j] == smear_after(c, *video, by_factor, j, 0),
        decreases m - i,
    {
        acc.push(F32::of_count(c, video.frames[0].data[i] as u64));
        i += 1;
    }
    let mut frames: Vec<Frame> = Vec::new();
    let mut f: usize = 0;
    while f < n
        invariant
            c.sound(),
            f <= n,
            video.frames@.len() > 0,
            even_frames(*video),
            m == smeared_bytes(*video),
            bytes == frame_bytes(*video),
            width == video.frames@[0].width,
            height == video.frames@[0].height,
            acc@.len() == m,
            forall|j: int|
                0 <= j < m ==> #[trigger] acc@[j] == smear_after(c, *video, by_factor, j, f as nat),
            frames@.len() == f,
            forall|k: int|
                0 <= k < f ==> (#[trigger] frames@[k]).width == width && frames@[k].height == height
                    && frames@[k].data@ == smeared_data(c, *video, by_factor, k),
        decreases n - f,
    {
        smear_on(c, video, by_factor, &mut acc, f);
        let data: Vec<u8> = smear_frame(c, &acc, bytes);
        assert(data@ =~= smeared_data(c, *video, by_factor, f as int));
        frames.push(Frame { width, height, data });
        f += 1;
    }
    let r: VideoClip = VideoClip { frames, fps: single(0x4140_0000) };
    proof {
        assert forall|k: int| 0 <= k < r.frames@.len() implies (#[trigger] r.frames@[k]).wf() by {
            assert(r.frames@[k].data@.len() == bytes);
        }
        if video.wf() {
            assert(video.frames@[0].wf());
        }
    }
    r
}

/// Derive a paulstretched source from `src`. Audio and video are both stretched by the
/// same factor; `base_hz` carries over because the pitch is unchanged, so key
/// quantization keeps working on the wash.
pub fn paulstretch_source<K: Fn(Op, Width, u64, u64) -> u64>(c: &Calc<K>, src: &Source, factor: F32) -> (r: Source)
    requires
        c.sound(),
        src.video is Some && src.video->0.plays() ==> even_frames(*(src.video->0)),
    ensures
        r.name@ == "paul x"@ + fixed_single(clamp_factor(factor), 0) + " "@ + src.name@,
        r.base_hz == src.base_hz,
        r.audio is Some <==> src.audio is Some,
        r.audio is Some ==> {
            &&& r.audio->0.sample_rate == if src.audio->0.sample_rate < 1 {
                1
            } else {
                src.audio->0.sample_rate
            }
            &&& r.audio->0.samples@ == stretched(
                c,
                src.audio->0.samples@,
                clamp_factor(factor),
                r.audio->0.sample_rate,
            )
        },
        r.video is Some <==> src.video is Some,
        r.video is Some ==> is_slowed(c, *(src.video->0), clamp_factor(factor), *(r.video->0)),
        src.wf() ==> r.wf(),
{
    let factor: F32 = clamp_factor(factor);
    let mut name: String = "paul x".to_owned();
    push_single(&mut name, factor, 0);
    name.append(" ");
    name.append(src.name.as_str());
    let audio: Option<Arc<AudioClip>> = match &src.audio {
        Some(a) => Some(Arc::new(paulstretch(c, a, factor))),
        None => None,
    };
    let video: Option<Arc<VideoClip>> = match &src.video {
        Some(v) => Some(Arc::new(stretch_video(c, v, factor))),
        None => None,
    };
    Source { name, audio, video, base_hz: src.base_hz }
}

// --------------------------------------------------------------------- laws

/// Every factor that is stretched by lies within 2..=64, whatever was asked for, and
/// asking for that one again changes nothing.
pub proof fn law_factors_are_bounded(factor: F32)
    ensures
        single(0x4000_0000).at_most(clamp_factor(factor)),
        clamp_factor(factor).at_most(single(0x4280_0000)),
        clamp_factor(clamp_factor(factor)) == clamp_factor(factor),
{
}

/// A stretched clip that was brought to a level stays within -1..=1.
pub proof fn law_levelled_samples_stay_in_range<K: Fn(Op, Width, u64, u64) -> u64>(c: &Calc<K>, input: Seq<F32>, out: Seq<F32>, i: int)
    requires
        0 <= i < out.len(),
        single(0x3089_705f).lt(rms_of(c, out)),
        single(0x3089_705f).lt(rms_of(c, input)),
    ensures
        ({
            let s = levelled(c, input, out)[i];
            s.nan() || (single(0xbf80_0000).at_most(s) && s.at_most(single(0x3f80_0000)))
        }),
{
}

/// A stretched clip is as long as the factor says, and never shorter than a window.
pub proof fn law_stretched_length<K: Fn(Op, Width, u64, u64) -> u64>(c: &Calc<K>, input: Seq<F32>, factor: F32, rate: u32)
    requires
        0 < input.len() <= usize::MAX,
    ensures
        stretched(c, input, factor, rate).len() == stretched_len(
            c,
            input.len() as u64,
            clamp_factor(factor).to_f64(c),
            rate,
            window_of(input.len() as int) as usize,
        ),
        stretched(c, input, factor, rate).len() >= 256,
{
    lemma2_to64();
    lemma_window_range(input.len() as int, 13);
}

/// How many samples a stretch by `factor` counts: that many times `len`, without what is
/// behind the point, or three minutes where that is less.
pub open spec fn counted(len: int, factor: F32, rate: u32) -> int {
    let exact = len * factor.value();
    if exact <= 180 * rate * one() {
        exact / one()
    } else {
        180 * rate
    }
}

/// In samples: a stretched clip has the factor times as many as its input, rounded down,
/// or three minutes of them where that is less, but no fewer than a window. The product
/// is exact below 2^29 samples, and past three minutes it does not matter.
pub proof fn law_stretched_length_in_samples<K: Fn(Op, Width, u64, u64) -> u64>(c: &Calc<K>, input: Seq<F32>, factor: F32, rate: u32)
    requires
        rounds_doubles(c),
        0 < input.len() <= usize::MAX,
        input.len() < 0x2000_0000 || 90 * rate <= input.len(),
        180 * rate <= usize::MAX,
    ensures
        ({
            let n = counted(input.len() as int, clamp_factor(factor), rate);
            let w = window_of(input.len() as int);
            stretched(c, input, factor, rate).len() == if n < w {
                w as int
            } else {
                n
            }
        }),
{
    law_stretched_length(c, input, factor, rate);
    lemma2_to64();
    lemma_window_range(input.len() as int, 13);
    law_factors_are_bounded(factor);
    lemma_counted(c, input.len() as u64, clamp_factor(factor), rate);
}

/// The double of 180 denotes 180.
proof fn lemma_three_minutes()
    ensures
        double(0x4066_8000_0000_0000).finite(),
        double(0x4066_8000_0000_0000).value() == 180 * unit(),
{
    assert(0x4066_8000_0000_0000int / 0x10_0000_0000_0000 == 1030 && 0x4066_8000_0000_0000int
        % 0x10_0000_0000_0000 == 0x6_8000_0000_0000);
    lemma2_to64();
    lemma_pow2_adds(13, 32);
    lemma_pow2_adds(45, 1029);
    let (a, u) = (pow2(1029) as int, unit());
    assert(0x16_8000_0000_0000 * a == 180 * u) by (nonlinear_arith)
        requires
            u == 0x2000_0000_0000 * a,
    ;
    assert(double(0x4066_8000_0000_0000).value() == double_value(0x4066_8000_0000_0000));
}

proof fn lemma_counted<K: Fn(Op, Width, u64, u64) -> u64>(c: &Calc<K>, len: u64, k: F32, rate: u32)
    requires
        rounds_doubles(c),
        single(0x4000_0000).le(k),
        k.le(single(0x4280_0000)),
        len < 0x2000_0000 || 90 * rate <= len,
    ensures
        F64::of_count(c, len).mul(c, k.to_f64(c)).min(
            double(0x4066_8000_0000_0000).mul(c, F64::of_count(c, rate as u64)),
        ).to_int(c) == counted(len as int, k, rate),
        0 <= counted(len as int, k, rate) <= 180 * rate,
{
    let (o, u, r) = (one(), unit(), pow2(925) as int);
    lemma_pow2_pos(149);
    lemma_pow2_pos(1074);
    lemma_pow2_pos(925);
    lemma_pow2_adds(149, 925);
    lemma2_to64();
    assert(u == o * r);
    // Three minutes.
    lemma_three_minutes();
    lemma_count(c, rate as u64);
    let top = double(0x4066_8000_0000_0000);
    let per = F64::of_count(c, rate as u64);
    let cap = top.mul(c, per);
    lemma_grid(180 * rate, 1075);
    let z = grid(180 * rate, 1075);
    let exact = top.value() * per.value();
    assert(z.value() * u == exact) by (nonlinear_arith)
        requires
            z.value() == (180 * rate) * u,
            exact == (180 * u) * (rate * u),
    ;
    lemma_pow2_adds(8, 1074);
    lemma_pow2_adds(32, 1074);
    assert(small(top, 8)) by {
        assert(180 * u <= 256 * u) by (nonlinear_arith)
            requires
                u > 0,
        ;
    }
    assert(small(per, 32)) by {
        assert(rate * u <= 0x1_0000_0000 * u && 0 <= rate * u) by (nonlinear_arith)
            requires
                0 <= rate <= 0x1_0000_0000,
                u > 0,
        ;
    }
    lemma_mul_small(c, top, 8, per, 32);
    lemma_exact(cap, exact, u, z);
    assert(cap.value() == (180 * rate) * u);
    // The product.
    let kv = k.value();
    law_single_order_is_numeric(single(0x4000_0000), k);
    law_single_order_is_numeric(k, single(0x4280_0000));
    assert(0x4000_0000int / 0x80_0000 == 128 && 0x4000_0000int % 0x80_0000 == 0);
    assert(0x4280_0000int / 0x80_0000 == 133 && 0x4280_0000int % 0x80_0000 == 0);
    lemma_pow2_adds(23, 127);
    lemma_pow2_adds(1, 149);
    lemma_pow2_adds(23, 132);
    lemma_pow2_adds(6, 149);
    assert(single(0x4000_0000).value() == single_value(0x4000_0000));
    assert(single(0x4280_0000).value() == single_value(0x4280_0000));
    assert(2 * o <= kv <= 64 * o);
    lemma_converted(c, k);
    let f = k.to_f64(c);
    let count = F64::of_count(c, len);
    let p = count.mul(c, f);
    assert(small(f, 6)) by {
        lemma_pow2_adds(6, 1074);
        assert(0 <= kv * r <= 64 * u) by (nonlinear_arith)
            requires
                0 <= kv <= 64 * o,
                u == o * r,
                r > 0,
        ;
    }
    lemma_count_small(c, len);
    lemma_mul_small(c, count, 64, f, 6);
    let n = count.value() * f.value();
    let want = len * kv;
    if len < 0x2000_0000 {
        lemma_count(c, len);
        let e = k.mag() / 0x80_0000;
        let m = 0x80_0000 + k.mag() % 0x80_0000;
        assert(k.mag() == k.bits);
        assert(128 <= e <= 133);
        assert(kv == m * pow2((e - 1) as nat));
        let g = len * m;
        assert(0 <= g < 0x20_0000_0000_0000) by (nonlinear_arith)
            requires
                g == len * m,
                0 <= len < 0x2000_0000,
                0 <= m < 0x100_0000,
        ;
        lemma_grid(g, e + 925);
        lemma_pow2_adds((e - 1) as nat, 925);
        let y = grid(g, e + 925);
        let t = pow2((e - 1) as nat) as int;
        assert(y.value() == want * r) by (nonlinear_arith)
            requires
                y.value() == g * (t * r),
                g == len * m,
                kv == m * t,
                want == len * kv,
        ;
        assert(y.value() * u == n) by (nonlinear_arith)
            requires
                y.value() == want * r,
                want == len * kv,
                n == (len * u) * (kv * r),
        ;
        lemma_exact(p, n, u, y);
        law_double_order_is_numeric(cap, p);
        let room = 180 * rate;
        assert(want * r <= room * u <==> want <= room * o) by (nonlinear_arith)
            requires
                u == o * r,
                r > 0,
        ;
        assert(0 <= want) by (nonlinear_arith)
            requires
                want == len * kv,
                kv >= 0,
                len >= 0,
        ;
        if want <= room * o {
            assert((want * r) / u == want / o && 0 <= want * r) by (nonlinear_arith)
                requires
                    u == o * r,
                    r > 0,
                    o > 0,
                    0 <= want,
            {
                lemma_div_denominator(want * r, r, o);
                lemma_div_by_multiple(want, r);
            }
            assert(0 <= want / o <= room) by (nonlinear_arith)
                requires
                    0 <= want <= room * o,
                    o > 0,
            ;
            lemma_truncated(c, p);
        } else {
            lemma_whole_part(room, u);
            lemma_truncated(c, cap);
        }
    } else {
        let b = 90 * rate;
        lemma_grid(b, 1075);
        assert(b * u <= len * u) by (nonlinear_arith)
            requires
                b <= len,
                u > 0,
        ;
        lemma_of_count(c, len);
        lemma_at_least(count, len * u, 1, grid(b, 1075));
        let cv = count.value();
        assert(z.value() * u <= n) by (nonlinear_arith)
            requires
                z.value() == (2 * b) * u,
                n == cv * (kv * r),
                cv >= b * u,
                b >= 0,
                kv >= 2 * o,
                u == o * r,
                r > 0,
                o > 0,
        ;
        lemma_at_least(p, n, u, z);
        law_double_order_is_numeric(cap, p);
        law_double_order_is_numeric(p, cap);
        let room = 180 * rate;
        lemma_whole_part(room, u);
        if p.value() == cap.value() {
            lemma_truncated(c, p);
        }
        lemma_truncated(c, cap);
        assert(want >= room * o) by (nonlinear_arith)
            requires
                want == len * kv,
                room == 2 * b,
                len >= b,
                b >= 0,
                kv >= 2 * o,
                o > 0,
        ;
        assert((room * o) / o == room) by (nonlinear_arith)
            requires
                o > 0,
        ;
    }
}

proof fn lemma_whole_part(n: int, u: int)
    requires
        u > 0,
        n >= 0,
    ensures
        (n * u) / u == n,
        0 <= n * u,
{
    assert((n * u) / u == n && 0 <= n * u) by (nonlinear_arith)
        requires
            u > 0,
            n >= 0,
    ;
}

proof fn lemma_count_small<K: Fn(Op, Width, u64, u64) -> u64>(c: &Calc<K>, n: u64)
    requires
        rounds_doubles(c),
    ensures
        small(F64::of_count(c, n), 64),
{
    let u = unit();
    lemma_pow2_pos(1074);
    lemma_of_count(c, n);
    lemma_pow2_adds(64, 1074);
    lemma2_to64();
    lemma_grid(1, 1139);
    assert(double_value(0) == 0);
    assert(n * u <= 0x1_0000_0000_0000_0000 * u && 0 <= n * u) by (nonlinear_arith)
        requires
            0 <= n <= 0x1_0000_0000_0000_0000,
            u > 0,
    ;
    lemma_at_most(F64::of_count(c, n), n * u, 1, grid(1, 1139));
    lemma_at_least(F64::of_count(c, n), n * u, 1, double(0));
}

proof fn lemma_window_range(len: int, bits: nat)
    requires
        8 <= bits <= 13,
    ensures
        256 <= pow2(window_bits(len, bits)) <= WINDOW,
    decreases bits,
{
    lemma2_to64();
    if bits > 8 {
        lemma_pow2_strictly_increases(8, bits);
        if pow2(bits) > len {
            lemma_window_range(len, (bits - 1) as nat);
        }
    }
    if bits < 13 {
        lemma_pow2_strictly_increases(bits, 13);
    }
}

} // verus!
