//! Pure synth engines rendered as sources, so that synths get everything samples
//! get: granular clips, snippets, sequencer rows, pads, key quantization, effect
//! chains, transforms.
//!
//! Their video is generated from their own audio: an oscilloscope trace whose hue
//! follows the spectral centroid, on one axis of hue and frequency (low = red, high =
//! violet).
use crate::audio::{edge_env, power_in, power_of, sample_time, samples_in, seconds, silence, AudioClip};
use crate::calc::{Calc, Op, Width};
use crate::dsp::{drawn_centred, seeded, stirred, Rng};
use crate::fft::{fft, hann_of, magnitude, paired, transformed, Cpx};
use crate::figures::{fixed_single, push_single};
use crate::num::{single, F32, F64};
use crate::timeline::Source;
use crate::video::{hsv_to_rgb, lemma_index, lemma_place, rgb_of, Frame, Image, Rgba, VideoClip};
use std::sync::Arc;
use vstd::arithmetic::power2::{lemma2_to64, pow2};
use vstd::prelude::*;

verus! {

/// The end of the hue axis, degrees: 0 (red) is 80 Hz, 330 (violet) about 8 kHz. It
/// stops short of 360 so that high frequencies never wrap back to red.
#[verifier::allow_in_spec]
pub fn hue_span() -> F32
    returns
        (single(0x43a5_0000)),
{
    single(0x43a5_0000)
}

/// The frequency (Hz) of a hue (degrees).
#[verifier::allow_in_spec]
pub fn hue_to_freq<K: Fn(Op, Width, u64, u64) -> u64>(c: &Calc<K>, hue: F32) -> F32
    requires
        c.sound(),
    returns
        (single(0x42a0_0000).mul(
            c,
            single(0x4000_0000).pow(c, hue.limit(single(0), hue_span()).div(c, hue_span()).mul(c, single(0x40d4_7ae1))),
        )),
{
    single(0x42a0_0000).mul(
        c,
        single(0x4000_0000).pow(c, hue.limit(single(0), hue_span()).div(c, hue_span()).mul(c, single(0x40d4_7ae1))),
    )
}

/// The hue (degrees) of a frequency (Hz).
#[verifier::allow_in_spec]
pub fn freq_to_hue<K: Fn(Op, Width, u64, u64) -> u64>(c: &Calc<K>, freq: F32) -> F32
    requires
        c.sound(),
    returns
        (freq.max(single(0x3f80_0000)).div(c, single(0x42a0_0000)).log2(c).div(c, single(0x40d4_7ae1)).mul(c, hue_span()).limit(single(0), hue_span())),
{
    freq.max(single(0x3f80_0000)).div(c, single(0x42a0_0000)).log2(c).div(c, single(0x40d4_7ae1)).mul(c, hue_span()).limit(single(0), hue_span())
}

// ---------------------------------------------------------------------- fm

/// How far an oscillator's phase moves from one sample to the next.
#[verifier::allow_in_spec]
pub fn phase_step<K: Fn(Op, Width, u64, u64) -> u64>(c: &Calc<K>, hz: F32, sample_rate: u32) -> F32
    requires
        c.sound(),
    returns
        (single(0x40c9_0fdb).mul(c, hz).div(c, F32::of_count(c, sample_rate as u64))),
{
    single(0x40c9_0fdb).mul(c, hz).div(c, F32::of_count(c, sample_rate as u64))
}

/// The same for the modulator.
#[verifier::allow_in_spec]
pub fn modulator_step<K: Fn(Op, Width, u64, u64) -> u64>(c: &Calc<K>, hz: F32, ratio: F32, sample_rate: u32) -> F32
    requires
        c.sound(),
    returns
        (single(0x40c9_0fdb).mul(c, hz).mul(c, ratio.max(single(0x3c23_d70a))).div(c, F32::of_count(c, sample_rate as u64))),
{
    single(0x40c9_0fdb).mul(c, hz).mul(c, ratio.max(single(0x3c23_d70a))).div(c, F32::of_count(c, sample_rate as u64))
}

/// The modulation index at sample `i`: a bright attack settling into the sustain.
#[verifier::allow_in_spec]
pub fn index_at<K: Fn(Op, Width, u64, u64) -> u64>(c: &Calc<K>, index: F32, i: u64, sample_rate: u32) -> F32
    requires
        c.sound(),
    returns
        (index.mul(
            c,
            single(0x3eb3_3333).add(
                c,
                single(0x3f26_6666).mul(c, sample_time(c, i, sample_rate).minus().mul(c, single(0x4000_0000)).exp(c)),
            ),
        )),
{
    index.mul(
        c,
        single(0x3eb3_3333).add(
            c,
            single(0x3f26_6666).mul(c, sample_time(c, i, sample_rate).minus().mul(c, single(0x4000_0000)).exp(c)),
        ),
    )
}

/// Sample `i` of `n` of a two-operator tone, of the two phases.
#[verifier::allow_in_spec]
pub fn fm_sample<K: Fn(Op, Width, u64, u64) -> u64>(c: &Calc<K>, carrier: F32, modulator: F32, index: F32, i: u64, n: u64, sample_rate: u32) -> F32
    requires
        c.sound(),
    returns
        (single(0x3f33_3333).mul(c, edge_env(c, i, n, single(0x3da3_d70a))).mul(
            c,
            carrier.add(c, index_at(c, index, i, sample_rate).mul(c, modulator.sin(c))).sin(c),
        )),
{
    single(0x3f33_3333).mul(c, edge_env(c, i, n, single(0x3da3_d70a))).mul(
        c,
        carrier.add(c, index_at(c, index, i, sample_rate).mul(c, modulator.sin(c))).sin(c),
    )
}

/// A phase after `n` steps from zero.
pub open spec fn phase_after<K: Fn(Op, Width, u64, u64) -> u64>(c: &Calc<K>, step: F32, n: nat) -> F32
    decreases n,
{
    if n == 0 {
        single(0)
    } else {
        phase_after(c, step, (n - 1) as nat).add(c, step)
    }
}

/// The samples of a two-operator tone.
pub open spec fn fm_tone<K: Fn(Op, Width, u64, u64) -> u64>(c: &Calc<K>, base_hz: F32, ratio: F32, index: F32, secs: F32, sample_rate: u32) -> Seq<F32> {
    let n = samples_in(c, secs, sample_rate);
    let w_c = phase_step(c, base_hz, sample_rate);
    let w_m = modulator_step(c, base_hz, ratio, sample_rate);
    Seq::new(
        n as nat,
        |i: int|
            fm_sample(
                c,
                phase_after(c, w_c, i as nat),
                phase_after(c, w_m, i as nat),
                index,
                i as u64,
                n as u64,
                sample_rate,
            ),
    )
}

/// Two-operator FM: carrier at `base_hz`, modulator at `base_hz * ratio`, modulation
/// `index` easing off over the tone for movement.
pub fn render_fm<K: Fn(Op, Width, u64, u64) -> u64>(c: &Calc<K>, base_hz: F32, ratio: F32, index: F32, secs: F32, sample_rate: u32) -> (r: AudioClip)
    requires
        c.sound(),
    ensures
        r.sample_rate == sample_rate,
        r.samples@ == fm_tone(c, base_hz, ratio, index, secs, sample_rate),
{
    let n: usize = samples_in(c, secs, sample_rate);
    let w_c: F32 = phase_step(c, base_hz, sample_rate);
    let w_m: F32 = modulator_step(c, base_hz, ratio, sample_rate);
    let mut samples: Vec<F32> = Vec::new();
    let mut phase_c: F32 = single(0);
    let mut phase_m: F32 = single(0);
    let ghost tone = fm_tone(c, base_hz, ratio, index, secs, sample_rate);
    let mut i: usize = 0;
    while i < n
        invariant
            c.sound(),
            i <= n,
            n == samples_in(c, secs, sample_rate),
            w_c == phase_step(c, base_hz, sample_rate),
            w_m == modulator_step(c, base_hz, ratio, sample_rate),
            phase_c == phase_after(c, w_c, i as nat),
            phase_m == phase_after(c, w_m, i as nat),
            tone == fm_tone(c, base_hz, ratio, index, secs, sample_rate),
            samples@ =~= tone.take(i as int),
        decreases n - i,
    {
        samples.push(fm_sample(c, phase_c, phase_m, index, i as u64, n as u64, sample_rate));
        phase_c = phase_c.add(c, w_c);
        phase_m = phase_m.add(c, w_m);
        i += 1;
    }
    assert(tone.take(n as int) =~= tone);
    AudioClip::new(samples, sample_rate)
}

// ------------------------------------------------------------------- noise

/// What coloured noise remembers: the generator's state, three low passes that add up to
/// pink, and the leaky sum that is brown.
pub struct NoiseState {
    pub rng: u64,
    pub b0: F32,
    pub b1: F32,
    pub b2: F32,
    pub brown: F32,
}

/// A low pass with pole `a` and gain `g`.
#[verifier::allow_in_spec]
pub fn low_passed<K: Fn(Op, Width, u64, u64) -> u64>(c: &Calc<K>, a: F32, b: F32, white: F32, g: F32) -> F32
    requires
        c.sound(),
    returns
        (a.mul(c, b).add(c, white.mul(c, g))),
{
    a.mul(c, b).add(c, white.mul(c, g))
}

/// Brown noise after one more white sample.
#[verifier::allow_in_spec]
pub fn browned<K: Fn(Op, Width, u64, u64) -> u64>(c: &Calc<K>, brown: F32, white: F32) -> F32
    requires
        c.sound(),
    returns
        (brown.add(c, white.mul(c, single(0x3ca3_d70a))).limit(single(0xbf80_0000), single(0x3f80_0000)).mul(c, single(0x3f7f_3b64))),
{
    brown.add(c, white.mul(c, single(0x3ca3_d70a))).limit(single(0xbf80_0000), single(0x3f80_0000)).mul(c, single(0x3f7f_3b64))
}

/// Pink of the three low passes.
#[verifier::allow_in_spec]
pub fn pink_of<K: Fn(Op, Width, u64, u64) -> u64>(c: &Calc<K>, b0: F32, b1: F32, b2: F32, white: F32) -> F32
    requires
        c.sound(),
    returns
        (b0.add(c, b1).add(c, b2).add(c, white.mul(c, single(0x3e3d_3c36))).mul(c, single(0x3e80_0000))),
{
    b0.add(c, b1).add(c, b2).add(c, white.mul(c, single(0x3e3d_3c36))).mul(c, single(0x3e80_0000))
}

/// White, pink and brown mixed by `color`: 0 = white, 0.5 = pink-ish, 1 = brown.
#[verifier::allow_in_spec]
pub fn coloured<K: Fn(Op, Width, u64, u64) -> u64>(c: &Calc<K>, color: F32, white: F32, pink: F32, brown: F32) -> F32
    requires
        c.sound(),
    returns
        (if color.lt(single(0x3f00_0000)) {
            white.mul(c, single(0x3f80_0000).sub(c, color.mul(c, single(0x4000_0000)))).mul(c, single(0x3f00_0000)).add(
                c,
                pink.mul(c, color.mul(c, single(0x4000_0000))),
            )
        } else {
            pink.mul(c, single(0x3f80_0000).sub(c, color.sub(c, single(0x3f00_0000)).mul(c, single(0x4000_0000)))).add(
                c,
                brown.mul(c, color.sub(c, single(0x3f00_0000)).mul(c, single(0x4000_0000))).mul(c, single(0x40c0_0000)),
            )
        }),
{
    if color.lt(single(0x3f00_0000)) {
        white.mul(c, single(0x3f80_0000).sub(c, color.mul(c, single(0x4000_0000)))).mul(c, single(0x3f00_0000)).add(
            c,
            pink.mul(c, color.mul(c, single(0x4000_0000))),
        )
    } else {
        pink.mul(c, single(0x3f80_0000).sub(c, color.sub(c, single(0x3f00_0000)).mul(c, single(0x4000_0000)))).add(
            c,
            brown.mul(c, color.sub(c, single(0x3f00_0000)).mul(c, single(0x4000_0000))).mul(c, single(0x40c0_0000)),
        )
    }
}

/// A sample of noise under the envelope.
#[verifier::allow_in_spec]
pub fn noise_level<K: Fn(Op, Width, u64, u64) -> u64>(c: &Calc<K>, v: F32, i: u64, n: u64) -> F32
    requires
        c.sound(),
    returns
        (v.mul(c, edge_env(c, i, n, single(0x3d75_c28f))).mul(c, single(0x3f4c_cccd))),
{
    v.mul(c, edge_env(c, i, n, single(0x3d75_c28f))).mul(c, single(0x3f4c_cccd))
}

/// The seed of noise of a color.
#[verifier::allow_in_spec]
pub fn noise_seed<K: Fn(Op, Width, u64, u64) -> u64>(c: &Calc<K>, color: F32) -> u64
    requires
        c.sound(),
    returns
        (0xA0D10u64 ^ color.mul(c, single(0x447a_0000)).to_u64(c)),
{
    0xA0D10u64 ^ color.mul(c, single(0x447a_0000)).to_u64(c)
}

/// The state after one more sample.
pub open spec fn noise_next<K: Fn(Op, Width, u64, u64) -> u64>(c: &Calc<K>, s: NoiseState) -> NoiseState {
    let white = drawn_centred(s.rng);
    NoiseState {
        rng: stirred(s.rng),
        b0: low_passed(c, single(0x3f7f_65fe), s.b0, white, single(0x3dca_d8a1)),
        b1: low_passed(c, single(0x3f76_872b), s.b1, white, single(0x3e97_d0ff)),
        b2: low_passed(c, single(0x3f11_eb85), s.b2, white, single(0x3f86_be97)),
        brown: browned(c, s.brown, white),
    }
}

/// The state after `n` samples.
pub open spec fn noise_after<K: Fn(Op, Width, u64, u64) -> u64>(c: &Calc<K>, color: F32, n: nat) -> NoiseState
    decreases n,
{
    if n == 0 {
        NoiseState {
            rng: seeded(noise_seed(c, color)),
            b0: single(0),
            b1: single(0),
            b2: single(0),
            brown: single(0),
        }
    } else {
        noise_next(c, noise_after(c, color, (n - 1) as nat))
    }
}

/// Sample `i` of `n` of coloured noise.
pub open spec fn noise_sample<K: Fn(Op, Width, u64, u64) -> u64>(c: &Calc<K>, color: F32, i: nat, n: nat) -> F32 {
    let s = noise_after(c, color, i + 1);
    let white = drawn_centred(noise_after(c, color, i).rng);
    let pink = pink_of(c, s.b0, s.b1, s.b2, white);
    noise_level(c, coloured(c, color, white, pink, s.brown), i as u64, n as u64)
}

/// The samples of coloured noise.
pub open spec fn noise_tone<K: Fn(Op, Width, u64, u64) -> u64>(c: &Calc<K>, color: F32, secs: F32, sample_rate: u32) -> Seq<F32> {
    let n = samples_in(c, secs, sample_rate);
    Seq::new(
        n as nat,
        |i: int| noise_sample(c, color.limit(single(0), single(0x3f80_0000)), i as nat, n as nat),
    )
}

/// Colored noise: `color` 0 = white, 0.5 = pink-ish, 1 = brown.
pub fn render_noise<K: Fn(Op, Width, u64, u64) -> u64>(c: &Calc<K>, color: F32, secs: F32, sample_rate: u32) -> (r: AudioClip)
    requires
        c.sound(),
    ensures
        r.sample_rate == sample_rate,
        r.samples@ == noise_tone(c, color, secs, sample_rate),
{
    let n: usize = samples_in(c, secs, sample_rate);
    let ghost tone = noise_tone(c, color, secs, sample_rate);
    let color: F32 = color.limit(single(0), single(0x3f80_0000));
    let mut rng: Rng = Rng::new(noise_seed(c, color));
    let mut samples: Vec<F32> = Vec::new();
    let mut b0: F32 = single(0);
    let mut b1: F32 = single(0);
    let mut b2: F32 = single(0);
    let mut brown: F32 = single(0);
    let mut i: usize = 0;
    while i < n
        invariant
            c.sound(),
            i <= n,
            tone.len() == n,
            forall|k: int| 0 <= k < n ==> #[trigger] tone[k] == noise_sample(c, color, k as nat, n as nat),
            noise_after(c, color, i as nat) == (NoiseState { rng: rng@, b0, b1, b2, brown }),
            samples@ =~= tone.take(i as int),
        decreases n - i,
    {
        let white: F32 = rng.bipolar();
        b0 = low_passed(c, single(0x3f7f_65fe), b0, white, single(0x3dca_d8a1));
        b1 = low_passed(c, single(0x3f76_872b), b1, white, single(0x3e97_d0ff));
        b2 = low_passed(c, single(0x3f11_eb85), b2, white, single(0x3f86_be97));
        let pink: F32 = pink_of(c, b0, b1, b2, white);
        brown = browned(c, brown, white);
        samples.push(noise_level(c, coloured(c, color, white, pink, brown), i as u64, n as u64));
        assert(samples@[i as int] == tone[i as int]);
        i += 1;
    }
    assert(tone.take(n as int) =~= tone);
    AudioClip::new(samples, sample_rate)
}

// ------------------------------------------------------------------- scope

/// The points of a centroid's transform.
pub const CENTROID_N: usize = 512;

/// The first points of a window under a Hann window; silence past its end.
pub open spec fn hann_windowed<K: Fn(Op, Width, u64, u64) -> u64>(c: &Calc<K>, window: Seq<F32>) -> Seq<F32> {
    Seq::new(
        CENTROID_N as nat,
        |i: int|
            (if i < window.len() {
                window[i]
            } else {
                single(0)
            }).mul(c, hann_of(c, i as u64, CENTROID_N as u64)),
    )
}

/// The spectrum of a window.
pub open spec fn window_spectrum<K: Fn(Op, Width, u64, u64) -> u64>(c: &Calc<K>, window: Seq<F32>) -> Seq<Cpx> {
    transformed(
        c,
        paired(hann_windowed(c, window), Seq::new(CENTROID_N as nat, |i: int| single(0))),
        9,
        false,
    )
}

/// The frequency of bin `k`.
#[verifier::allow_in_spec]
pub fn bin_hz<K: Fn(Op, Width, u64, u64) -> u64>(c: &Calc<K>, k: u64, sample_rate: F32) -> F32
    requires
        c.sound(),
    returns
        (F32::of_count(c, k).mul(c, sample_rate).div(c, F32::of_count(c, CENTROID_N as u64))),
{
    F32::of_count(c, k).mul(c, sample_rate).div(c, F32::of_count(c, CENTROID_N as u64))
}

/// Magnitudes times frequencies, and magnitudes, of the bins from 1 below `k`.
pub open spec fn bin_sums<K: Fn(Op, Width, u64, u64) -> u64>(c: &Calc<K>, z: Seq<Cpx>, sample_rate: F32, k: int) -> (F32, F32)
    decreases k,
{
    if k <= 1 {
        (single(0), single(0))
    } else {
        let (num, den) = bin_sums(c, z, sample_rate, k - 1);
        let mag = magnitude(c, z[k - 1]);
        (num.add(c, mag.mul(c, bin_hz(c, (k - 1) as u64, sample_rate))), den.add(c, mag))
    }
}

/// The spectral centroid of a window, Hz; zero where there is nothing to hear.
pub open spec fn centroid<K: Fn(Op, Width, u64, u64) -> u64>(c: &Calc<K>, window: Seq<F32>, sample_rate: F32) -> F32 {
    let (num, den) = bin_sums(c, window_spectrum(c, window), sample_rate, 256);
    if single(0x3586_37bd).lt(den) {
        num.div(c, den)
    } else {
        single(0)
    }
}

/// Spectral centroid (Hz) of a window via the shared FFT.
pub fn centroid_hz<K: Fn(Op, Width, u64, u64) -> u64>(c: &Calc<K>, window: &[F32], sample_rate: F32) -> (r: F32)
    requires
        c.sound(),
    ensures
        r == centroid(c, window@, sample_rate),
{
    let mut re: Vec<F32> = Vec::new();
    let mut i: usize = 0;
    while i < CENTROID_N
        invariant
            c.sound(),
            i <= CENTROID_N,
            re@ =~= hann_windowed(c, window@).take(i as int),
        decreases CENTROID_N - i,
    {
        let s: F32 = if i < window.len() {
            window[i]
        } else {
            single(0)
        };
        re.push(s.mul(c, hann_of(c, i as u64, CENTROID_N as u64)));
        i += 1;
    }
    assert(re@ =~= hann_windowed(c, window@));
    let mut im: Vec<F32> = silence(CENTROID_N);
    proof {
        lemma2_to64();
        assert(re@.len() == pow2(9));
    }
    fft(c, &mut re, &mut im, false);
    let ghost z = window_spectrum(c, window@);
    assert(paired(re@, im@) == z);
    let mut num: F32 = single(0);
    let mut den: F32 = single(0);
    let mut k: usize = 1;
    while k < CENTROID_N / 2
        invariant
            c.sound(),
            1 <= k <= 256,
            re@.len() == CENTROID_N,
            im@.len() == CENTROID_N,
            paired(re@, im@) == z,
            bin_sums(c, z, sample_rate, k as int) == (num, den),
        decreases 256 - k,
    {
        assert(z[k as int] == Cpx { re: re@[k as int], im: im@[k as int] });
        let mag: F32 = magnitude(c, Cpx { re: re[k], im: im[k] });
        num = num.add(c, mag.mul(c, bin_hz(c, k as u64, sample_rate)));
        den = den.add(c, mag);
        k += 1;
    }
    if single(0x3586_37bd).lt(den) {
        num.div(c, den)
    } else {
        single(0)
    }
}

/// Where window `f` starts: `f` whole windows in, and no later than the last sample.
pub open spec fn window_start(f: int, win_len: int, len: int) -> int {
    if f * win_len < len - 1 {
        f * win_len
    } else {
        len - 1
    }
}

/// Where window `f` ends.
pub open spec fn window_end(f: int, win_len: int, len: int) -> int {
    let start = window_start(f, win_len, len);
    if start + win_len < len {
        if win_len < 1 {
            start + 1
        } else {
            start + win_len
        }
    } else {
        len
    }
}

/// How many samples a frame of the scope spans.
#[verifier::allow_in_spec]
pub fn scope_window<K: Fn(Op, Width, u64, u64) -> u64>(c: &Calc<K>, sample_rate: u32, fps: F32) -> usize
    requires
        c.sound(),
    returns
        (F32::of_count(c, sample_rate as u64).div(c, fps).max(single(0x4000_0000)).to_size(c)),
{
    F32::of_count(c, sample_rate as u64).div(c, fps).max(single(0x4000_0000)).to_size(c)
}

/// How many frames cover `secs` seconds.
#[verifier::allow_in_spec]
pub fn scope_frames<K: Fn(Op, Width, u64, u64) -> u64>(c: &Calc<K>, secs: F64, fps: F32) -> usize
    requires
        c.sound(),
    returns
        (if secs.mul(c, fps.to_f64(c)).ceil(c).to_size(c) < 1 {
            1
        } else {
            secs.mul(c, fps.to_f64(c)).ceil(c).to_size(c)
        }),
{
    if secs.mul(c, fps.to_f64(c)).ceil(c).to_size(c) < 1 {
        1
    } else {
        secs.mul(c, fps.to_f64(c)).ceil(c).to_size(c)
    }
}

/// How bright a window of a loudness is.
#[verifier::allow_in_spec]
pub fn scope_bright<K: Fn(Op, Width, u64, u64) -> u64>(c: &Calc<K>, rms: F32) -> F32
    requires
        c.sound(),
    returns
        (single(0x3e80_0000).add(c, rms.mul(c, single(0x400c_cccd))).min(single(0x3f80_0000))),
{
    single(0x3e80_0000).add(c, rms.mul(c, single(0x400c_cccd))).min(single(0x3f80_0000))
}

/// Where the trace of an amplitude runs, in a frame of a height.
#[verifier::allow_in_spec]
pub fn trace_y<K: Fn(Op, Width, u64, u64) -> u64>(c: &Calc<K>, amp: F32, height: u32) -> F32
    requires
        c.sound(),
    returns
        (F32::of_count(c, height as u64).div(c, single(0x4000_0000)).sub(
            c,
            amp.mul(c, F32::of_count(c, height as u64).div(c, single(0x4000_0000))).mul(c, single(0x3f4c_cccd)),
        )),
{
    F32::of_count(c, height as u64).div(c, single(0x4000_0000)).sub(
        c,
        amp.mul(c, F32::of_count(c, height as u64).div(c, single(0x4000_0000))).mul(c, single(0x3f4c_cccd)),
    )
}

/// How wide the trace glows.
#[verifier::allow_in_spec]
pub fn trace_glow<K: Fn(Op, Width, u64, u64) -> u64>(c: &Calc<K>, height: u32) -> F32
    requires
        c.sound(),
    returns
        (F32::of_count(c, height as u64).mul(c, single(0x3d75_c28f)).max(single(0x3fc0_0000))),
{
    F32::of_count(c, height as u64).mul(c, single(0x3d75_c28f)).max(single(0x3fc0_0000))
}

/// How strongly the trace shows `y` rows from the top.
#[verifier::allow_in_spec]
pub fn trace_alpha<K: Fn(Op, Width, u64, u64) -> u64>(c: &Calc<K>, y: u32, yc: F32, glow: F32) -> F32
    requires
        c.sound(),
    returns
        (F32::of_count(c, y as u64).sub(c, yc).abs().div(c, glow).minus().mul(
            c,
            F32::of_count(c, y as u64).sub(c, yc).abs().div(c, glow),
        ).exp(c)),
{
    F32::of_count(c, y as u64).sub(c, yc).abs().div(c, glow).minus().mul(
        c,
        F32::of_count(c, y as u64).sub(c, yc).abs().div(c, glow),
    ).exp(c)
}

/// A channel with the trace's light on it.
#[verifier::allow_in_spec]
pub fn lit<K: Fn(Op, Width, u64, u64) -> u64>(c: &Calc<K>, px: u8, trace: u8, a: F32) -> u8
    requires
        c.sound(),
    returns
        (F32::of_count(c, px as u64).add(c, F32::of_count(c, trace as u64).mul(c, a)).min(single(0x437f_0000)).to_u8(c)),
{
    F32::of_count(c, px as u64).add(c, F32::of_count(c, trace as u64).mul(c, a)).min(single(0x437f_0000)).to_u8(c)
}

/// The first row that the trace touches.
#[verifier::allow_in_spec]
pub fn trace_top<K: Fn(Op, Width, u64, u64) -> u64>(c: &Calc<K>, yc: F32, glow: F32) -> i32
    requires
        c.sound(),
    returns
        (if yc.sub(c, glow.mul(c, single(0x4040_0000))).floor(c).to_i32(c) < 0 {
            0
        } else {
            yc.sub(c, glow.mul(c, single(0x4040_0000))).floor(c).to_i32(c)
        }),
{
    if yc.sub(c, glow.mul(c, single(0x4040_0000))).floor(c).to_i32(c) < 0 {
        0
    } else {
        yc.sub(c, glow.mul(c, single(0x4040_0000))).floor(c).to_i32(c)
    }
}

/// The last row that the trace touches, before the frame's end.
#[verifier::allow_in_spec]
pub fn trace_bottom<K: Fn(Op, Width, u64, u64) -> u64>(c: &Calc<K>, yc: F32, glow: F32) -> i32
    requires
        c.sound(),
    returns
        (yc.add(c, glow.mul(c, single(0x4040_0000))).ceil(c).to_i32(c)),
{
    yc.add(c, glow.mul(c, single(0x4040_0000))).ceil(c).to_i32(c)
}

/// The loudness of a window.
pub open spec fn window_rms<K: Fn(Op, Width, u64, u64) -> u64>(c: &Calc<K>, window: Seq<F32>) -> F32 {
    power_of(c, single(0), window).div(c, F32::of_count(c, window.len() as u64)).sqrt(c)
}

/// A pixel with the trace on it.
pub open spec fn traced<K: Fn(Op, Width, u64, u64) -> u64>(c: &Calc<K>, px: Rgba, light: (u8, u8, u8), y: int, yc: F32, glow: F32) -> Rgba {
    let a = trace_alpha(c, y as u32, yc, glow);
    if !(trace_top(c, yc, glow) <= y <= trace_bottom(c, yc, glow)) || a.lt(single(0x3ca3_d70a)) {
        px
    } else {
        Rgba {
            r: lit(c, px.r, light.0, a),
            g: lit(c, px.g, light.1, a),
            b: lit(c, px.b, light.2, a),
            a: 255,
        }
    }
}

/// The sample that column `x` of `width` shows.
pub open spec fn column_sample(window: Seq<F32>, x: int, width: int) -> F32 {
    window[(x * (window.len() - 1)) / width]
}

/// The two colours of a window: the dim wash behind, and the trace.
pub open spec fn scope_colours<K: Fn(Op, Width, u64, u64) -> u64>(c: &Calc<K>, window: Seq<F32>, sample_rate: F32) -> ((u8, u8, u8), (u8, u8, u8)) {
    let hue = freq_to_hue(c, centroid(c, window, sample_rate));
    let bright = scope_bright(c, window_rms(c, window));
    (rgb_of(c, hue, single(0x3f59_999a), bright.mul(c, single(0x3e8f_5c29))), rgb_of(c, hue, single(0x3f0c_cccd), bright))
}

/// The scope's frame of a window.
pub open spec fn scope_image<K: Fn(Op, Width, u64, u64) -> u64>(c: &Calc<K>, window: Seq<F32>, sample_rate: F32, width: u32, height: u32) -> Image {
    let (wash, light) = scope_colours(c, window, sample_rate);
    Image {
        width: width as int,
        height: height as int,
        px: Seq::new(
            (width * height) as nat,
            |j: int|
                traced(
                    c,
                    Rgba { r: wash.0, g: wash.1, b: wash.2, a: 255 },
                    light,
                    j / (width as int),
                    trace_y(c, column_sample(window, j % (width as int), width as int), height),
                    trace_glow(c, height),
                ),
        ),
    }
}

fn trace_column<K: Fn(Op, Width, u64, u64) -> u64>(c: &Calc<K>, frame: &mut Frame, x: u32, light: (u8, u8, u8), yc: F32, glow: F32)
    requires
        c.sound(),
        old(frame).wf(),
        x < old(frame).width,
    ensures
        final(frame).wf(),
        final(frame).width == old(frame).width,
        final(frame).height == old(frame).height,
        forall|j: int|
            0 <= j < old(frame)@.px.len() ==> #[trigger] final(frame)@.px[j] == if j % (old(
                frame,
            ).width as int) == x {
                traced(c, old(frame)@.px[j], light, j / (old(frame).width as int), yc, glow)
            } else {
                old(frame)@.px[j]
            },
{
    let ghost before = *frame;
    let w: u32 = frame.width;
    let h: u32 = frame.height;
    assert(h <= u32::MAX / 4) by (nonlinear_arith)
        requires
            w * h * 4 <= u32::MAX,
            w >= 1,
    ;
    let y0: i32 = trace_top(c, yc, glow);
    let bottom: i32 = trace_bottom(c, yc, glow);
    let y1: i32 = if bottom < h as i32 - 1 {
        bottom
    } else {
        h as i32 - 1
    };
    let mut y: i32 = y0;
    while y <= y1
        invariant
            c.sound(),
            frame.wf(),
            before.wf(),
            frame.width == before.width,
            frame.height == before.height,
            w == before.width,
            h == before.height,
            h <= u32::MAX / 4,
            x < w,
            0 <= y0 <= y,
            y <= y1 + 1 || y == y0,
            y1 < h,
            y1 <= bottom,
            y1 == bottom || y1 == h - 1,
            y0 == trace_top(c, yc, glow),
            bottom == trace_bottom(c, yc, glow),
            before@.px.len() == w * h,
            frame@.px.len() == w * h,
            forall|j: int|
                0 <= j < w * h ==> #[trigger] frame@.px[j] == if j % (w as int) == x && j / (
                w as int) < y {
                    traced(c, before@.px[j], light, j / (w as int), yc, glow)
                } else {
                    before@.px[j]
                },
        decreases y1 - y + 1,
    {
        let i: usize = frame.index(x, y as u32);
        proof {
            lemma_index(w as int, h as int, x as int, y as int);
        }
        let a: F32 = trace_alpha(c, y as u32, yc, glow);
        let ghost last = frame@.px;
        let px: Rgba = frame.load(i);
        assert(px == before@.px[i as int]);
        if !a.lt(single(0x3ca3_d70a)) {
            frame.store(
                i,
                Rgba {
                    r: lit(c, px.r, light.0, a),
                    g: lit(c, px.g, light.1, a),
                    b: lit(c, px.b, light.2, a),
                    a: 255,
                },
            );
        }
        proof {
            assert forall|j: int| 0 <= j < w * h implies #[trigger] frame@.px[j] == if j % (w as int)
                == x && j / (w as int) < y + 1 {
                traced(c, before@.px[j], light, j / (w as int), yc, glow)
            } else {
                before@.px[j]
            } by {
                lemma_place(w as int, h as int, j);
                assert(last[j] == if j % (w as int) == x && j / (w as int) < y {
                    traced(c, before@.px[j], light, j / (w as int), yc, glow)
                } else {
                    before@.px[j]
                });
                if j != i {
                    if j % (w as int) == x && j / (w as int) == y {
                        assert(j == i);
                    }
                }
            }
        }
        y += 1;
    }
    proof {
        assert forall|j: int| 0 <= j < before@.px.len() implies #[trigger] frame@.px[j] == if j % (
        w as int) == x {
            traced(c, before@.px[j], light, j / (w as int), yc, glow)
        } else {
            before@.px[j]
        } by {
            lemma_place(w as int, h as int, j);
        }
    }
}

/// Paint the scope's frame of a window.
pub fn scope_frame<K: Fn(Op, Width, u64, u64) -> u64>(c: &Calc<K>, window: &[F32], sample_rate: F32, width: u32, height: u32) -> (r: Frame)
    requires
        c.sound(),
        window@.len() > 0,
        width * height * 4 <= u32::MAX,
    ensures
        r.wf(),
        r.width == width,
        r.height == height,
        r@ == scope_image(c, window@, sample_rate, width, height),
{
    let n: usize = window.len();
    let rms: F32 = power_in(c, single(0), window).div(c, F32::of_count(c, n as u64)).sqrt(c);
    let hue: F32 = freq_to_hue(c, centroid_hz(c, window, sample_rate));
    let bright: F32 = scope_bright(c, rms);
    let wash: (u8, u8, u8) = hsv_to_rgb(c, hue, single(0x3f59_999a), bright.mul(c, single(0x3e8f_5c29)));
    let light: (u8, u8, u8) = hsv_to_rgb(c, hue, single(0x3f0c_cccd), bright);
    let base: Rgba = Rgba { r: wash.0, g: wash.1, b: wash.2, a: 255 };
    let mut frame: Frame = Frame::filled(width, height, base);
    let glow: F32 = trace_glow(c, height);
    let ghost want = scope_image(c, window@, sample_rate, width, height);
    let mut x: u32 = 0;
    proof {
        assert forall|j: int| 0 <= j < width * height implies frame@.px[j] == base by {}
        assert(forall|j: int| 0 <= j < width * height ==> 0 <= #[trigger] (j % (width as int))) by {
            assert forall|j: int| 0 <= j < width * height implies 0 <= #[trigger] (j % (
            width as int)) by {
                lemma_place(width as int, height as int, j);
            }
        }
    }
    while x < width
        invariant
            c.sound(),
            x <= width,
            n == window@.len(),
            n > 0,
            frame.wf(),
            frame.width == width,
            frame.height == height,
            frame@.px.len() == width * height,
            want == scope_image(c, window@, sample_rate, width, height),
            scope_colours(c, window@, sample_rate) == (wash, light),
            base == (Rgba { r: wash.0, g: wash.1, b: wash.2, a: 255 }),
            glow == trace_glow(c, height),
            forall|j: int|
                0 <= j < width * height ==> #[trigger] frame@.px[j] == if j % (width as int) < x {
                    want.px[j]
                } else {
                    base
                },
        decreases width - x,
    {
        proof {
            assert(0 <= x * (n - 1) && (x * (n - 1)) / (width as int) <= n - 1 && x * (n - 1)
                <= u32::MAX * usize::MAX) by (nonlinear_arith)
                requires
                    0 <= x < width,
                    width <= u32::MAX,
                    1 <= n <= usize::MAX,
            ;
        }
        let at: usize = (x as u128 * (n - 1) as u128 / width as u128) as usize;
        let yc: F32 = trace_y(c, window[at], height);
        let ghost last = frame@.px;
        trace_column(c, &mut frame, x, light, yc, glow);
        proof {
            assert forall|j: int| 0 <= j < width * height implies #[trigger] frame@.px[j] == if j % (
            width as int) < x + 1 {
                want.px[j]
            } else {
                base
            } by {
                assert(last[j] == if j % (width as int) < x {
                    want.px[j]
                } else {
                    base
                });
            }
        }
        x += 1;
    }
    proof {
        assert forall|j: int| 0 <= j < width * height implies frame@.px[j] == want.px[j] by {
            lemma_place(width as int, height as int, j);
        }
        assert(frame@.px =~= want.px);
    }
    frame
}

/// Window `f` of a clip.
pub open spec fn scope_samples<K: Fn(Op, Width, u64, u64) -> u64>(c: &Calc<K>, samples: Seq<F32>, sample_rate: u32, fps: F32, f: int) -> Seq<F32> {
    let win_len = scope_window(c, sample_rate, fps) as int;
    samples.subrange(
        window_start(f, win_len, samples.len() as int),
        window_end(f, win_len, samples.len() as int),
    )
}

/// Whether a video is the scope of a clip's samples.
pub open spec fn is_scope<K: Fn(Op, Width, u64, u64) -> u64>(c: &Calc<K>, v: VideoClip, samples: Seq<F32>, sample_rate: u32, width: u32, height: u32, fps: F32) -> bool {
    &&& v.fps == fps
    &&& v.frames@.len() == scope_frames(c, seconds(c, samples.len(), sample_rate), fps)
    &&& forall|f: int|
        0 <= f < v.frames@.len() ==> (#[trigger] v.frames@[f]).wf() && v.frames@[f].width == width
            && v.frames@[f].height == height && v.frames@[f]@ == scope_image(
            c,
            scope_samples(c, samples, sample_rate, fps, f),
            F32::of_count(c, sample_rate as u64),
            width,
            height,
        )
}

fn window_from(f: usize, win_len: usize, len: usize) -> (r: usize)
    requires
        len > 0,
    ensures
        r == window_start(f as int, win_len as int, len as int),
        r < len,
{
    assert(f * win_len <= usize::MAX * usize::MAX) by (nonlinear_arith)
        requires
            f <= usize::MAX,
            win_len <= usize::MAX,
    ;
    let at: u128 = f as u128 * win_len as u128;
    if at < (len - 1) as u128 {
        at as usize
    } else {
        len - 1
    }
}

/// Audio-reactive video: an oscilloscope trace of the actual waveform, hue = spectral
/// centroid (the axis of hue and frequency), glow = loudness.
pub fn scope_video<K: Fn(Op, Width, u64, u64) -> u64>(c: &Calc<K>, audio: &AudioClip, width: u32, height: u32, fps: F32) -> (r: VideoClip)
    requires
        c.sound(),
        audio.samples@.len() > 0,
        width * height * 4 <= u32::MAX,
    ensures
        is_scope(c, r, audio.samples@, audio.sample_rate, width, height, fps),
{
    let n: usize = scope_frames(c, audio.duration(c), fps);
    let sr: F32 = F32::of_count(c, audio.sample_rate as u64);
    let win_len: usize = scope_window(c, audio.sample_rate, fps);
    let len: usize = audio.samples.len();
    let mut frames: Vec<Frame> = Vec::new();
    let mut f: usize = 0;
    while f < n
        invariant
            c.sound(),
            f <= n,
            len == audio.samples@.len(),
            len > 0,
            width * height * 4 <= u32::MAX,
            win_len == scope_window(c, audio.sample_rate, fps),
            sr == F32::of_count(c, audio.sample_rate as u64),
            frames@.len() == f,
            forall|k: int|
                0 <= k < f ==> (#[trigger] frames@[k]).wf() && frames@[k].width == width
                    && frames@[k].height == height && frames@[k]@ == scope_image(
                    c,
                    scope_samples(c, audio.samples@, audio.sample_rate, fps, k),
                    sr,
                    width,
                    height,
                ),
        decreases n - f,
    {
        let start: usize = window_from(f, win_len, len);
        let end: usize = if win_len < len - start {
            if win_len < 1 {
                start + 1
            } else {
                start + win_len
            }
        } else {
            len
        };
        let window: &[F32] = vstd::slice::slice_subrange(audio.samples.as_slice(), start, end);
        frames.push(scope_frame(c, window, sr, width, height));
        f += 1;
    }
    VideoClip { frames, fps }
}

// ----------------------------------------------------------------- sources

/// Whether a synth source of these samples is complete: audio and the video of it.
pub open spec fn synth_media<K: Fn(Op, Width, u64, u64) -> u64>(c: &Calc<K>, s: Source, samples: Seq<F32>, sample_rate: u32) -> bool {
    &&& s.wf()
    &&& s.audio is Some
    &&& s.audio->0.sample_rate == sample_rate
    &&& s.audio->0.samples@ == samples
    &&& s.video is Some
    &&& is_scope(c, *(s.video->0), samples, sample_rate, 240, 136, single(0x4140_0000))
}

fn synth_source<K: Fn(Op, Width, u64, u64) -> u64>(c: &Calc<K>, name: String, audio: AudioClip, base_hz: F32) -> (r: Source)
    requires
        c.sound(),
        audio.samples@.len() > 0,
    ensures
        r.name@ == name@,
        r.base_hz == base_hz,
        synth_media(c, r, audio.samples@, audio.sample_rate),
{
    let video: VideoClip = scope_video(c, &audio, 240, 136, single(0x4140_0000));
    Source { name, audio: Some(Arc::new(audio)), video: Some(Arc::new(video)), base_hz }
}

/// The name of an FM source.
pub open spec fn fm_name(base_hz: F32, ratio: F32, index: F32) -> Seq<char> {
    "fm "@ + fixed_single(base_hz, 0) + "Hz x"@ + fixed_single(ratio, 2) + " i"@ + fixed_single(
        index,
        1,
    )
}

/// A complete FM synth source (audio + corresponding scope video).
pub fn fm_source<K: Fn(Op, Width, u64, u64) -> u64>(c: &Calc<K>, base_hz: F32, ratio: F32, index: F32, secs: F32, sample_rate: u32) -> (r: Source)
    requires
        c.sound(),
        samples_in(c, secs, sample_rate) > 0,
    ensures
        r.name@ == fm_name(base_hz, ratio, index),
        r.base_hz == base_hz,
        synth_media(c, r, fm_tone(c, base_hz, ratio, index, secs, sample_rate), sample_rate),
{
    let audio: AudioClip = render_fm(c, base_hz, ratio, index, secs, sample_rate);
    let mut name: String = "fm ".to_owned();
    push_single(&mut name, base_hz, 0);
    name.append("Hz x");
    push_single(&mut name, ratio, 2);
    name.append(" i");
    push_single(&mut name, index, 1);
    synth_source(c, name, audio, base_hz)
}

/// A complete noise synth source (audio + corresponding scope video).
pub fn noise_source<K: Fn(Op, Width, u64, u64) -> u64>(c: &Calc<K>, color: F32, secs: F32, sample_rate: u32) -> (r: Source)
    requires
        c.sound(),
        samples_in(c, secs, sample_rate) > 0,
    ensures
        r.name@ == "noise c"@ + fixed_single(color, 2),
        r.base_hz == single(0),
        synth_media(c, r, noise_tone(c, color, secs, sample_rate), sample_rate),
{
    let audio: AudioClip = render_noise(c, color, secs, sample_rate);
    let mut name: String = "noise c".to_owned();
    push_single(&mut name, color, 2);
    synth_source(c, name, audio, single(0))
}

// --------------------------------------------------------------------- laws

/// Every hue is on the axis, from red to violet, whatever the frequency.
pub proof fn law_hues_stay_on_the_axis<K: Fn(Op, Width, u64, u64) -> u64>(c: &Calc<K>, freq: F32)
    ensures
        freq_to_hue(c, freq).nan() || single(0).at_most(freq_to_hue(c, freq)),
        freq_to_hue(c, freq).nan() || freq_to_hue(c, freq).at_most(hue_span()),
{
}

/// The windows of a scope lie within the clip, none is empty, and they move on by whole
/// windows until the clip's last sample.
pub proof fn law_scope_windows_advance(f: int, win_len: int, len: int)
    requires
        0 <= f,
        0 <= win_len,
        0 < len,
    ensures
        0 <= window_start(f, win_len, len) < window_end(f, win_len, len) <= len,
        window_start(f + 1, win_len, len) >= window_start(f, win_len, len),
        f * win_len < len - 1 ==> window_start(f, win_len, len) == f * win_len,
{
    assert(0 <= f * win_len <= (f + 1) * win_len) by (nonlinear_arith)
        requires
            0 <= f,
            0 <= win_len,
    ;
}

} // verus!
