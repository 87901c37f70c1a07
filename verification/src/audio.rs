//! Audio side: clips, granular rendering into a stereo buffer.
use crate::calc::{Calc, Op, Width};
use crate::dsp::{apply_filter_chain, chain_filtered, grain_env, grain_env_skewed, FilterSpec};
use crate::grain::GrainEvent;
use crate::num::{double, single, F32, F64};
use vstd::prelude::*;

verus! {

/// Mono audio clip (sources are mixed down on load; grains re-spatialize).
#[derive(Debug)]
pub struct AudioClip {
    pub samples: Vec<F32>,
    pub sample_rate: u32,
}

impl Clone for AudioClip {
    fn clone(&self) -> (r: AudioClip)
        ensures
            r.samples@ == self.samples@,
            r.sample_rate == self.sample_rate,
    {
        AudioClip { samples: self.samples.clone(), sample_rate: self.sample_rate }
    }
}

impl Default for AudioClip {
    fn default() -> (r: AudioClip)
        ensures
            r.samples@ == Seq::<F32>::empty(),
            r.sample_rate == 0,
    {
        AudioClip { samples: Vec::new(), sample_rate: 0 }
    }
}

/// `n` samples of silence.
pub fn silence(n: usize) -> (r: Vec<F32>)
    ensures
        r@ == Seq::new(n as nat, |i: int| single(0)),
{
    let mut v: Vec<F32> = Vec::new();
    let mut i: usize = 0;
    while i < n
        invariant
            i <= n,
            v@ =~= Seq::new(i as nat, |k: int| single(0)),
        decreases n - i,
    {
        v.push(single(0));
        i += 1;
    }
    v
}

/// Seconds that `n` samples last at a rate; none at rate zero.
pub open spec fn seconds<K: Fn(Op, Width, u64, u64) -> u64>(c: &Calc<K>, n: nat, rate: u32) -> F64 {
    if rate == 0 {
        double(0)
    } else {
        F64::of_count(c, n as u64).div(c, F64::of_count(c, rate as u64))
    }
}

/// How many samples `secs` seconds are at a rate.
#[verifier::allow_in_spec]
pub fn samples_in<K: Fn(Op, Width, u64, u64) -> u64>(c: &Calc<K>, secs: F32, sample_rate: u32) -> usize
    requires
        c.sound(),
    returns
        (secs.mul(c, F32::of_count(c, sample_rate as u64)).to_size(c)),
{
    secs.mul(c, F32::of_count(c, sample_rate as u64)).to_size(c)
}

/// The time of sample `i`, seconds.
#[verifier::allow_in_spec]
pub fn sample_time<K: Fn(Op, Width, u64, u64) -> u64>(c: &Calc<K>, i: u64, sample_rate: u32) -> F32
    requires
        c.sound(),
    returns
        (F32::of_count(c, i).div(c, F32::of_count(c, sample_rate as u64))),
{
    F32::of_count(c, i).div(c, F32::of_count(c, sample_rate as u64))
}

/// A soft attack and release over `n` samples.
#[verifier::allow_in_spec]
pub fn edge_env<K: Fn(Op, Width, u64, u64) -> u64>(c: &Calc<K>, i: u64, n: u64, shape: F32) -> F32
    requires
        c.sound(),
    returns
        (grain_env(c, F32::of_count(c, i).div(c, F32::of_count(c, if n < 1 { 1 } else { n })), shape)),
{
    grain_env(c, F32::of_count(c, i).div(c, F32::of_count(c, if n < 1 { 1 } else { n })), shape)
}

/// Sample `i` of a test tone.
#[verifier::allow_in_spec]
pub fn sine_sample<K: Fn(Op, Width, u64, u64) -> u64>(c: &Calc<K>, freq: F32, sample_rate: u32, i: u64, n: u64) -> F32
    requires
        c.sound(),
    returns
        (single(0x3f33_3333).mul(c, edge_env(c, i, n, single(0x3dcc_cccd))).mul(
            c,
            single(0x40c9_0fdb).mul(c, freq).mul(c, sample_time(c, i, sample_rate)).sin(c),
        )),
{
    single(0x3f33_3333).mul(c, edge_env(c, i, n, single(0x3dcc_cccd))).mul(
        c,
        single(0x40c9_0fdb).mul(c, freq).mul(c, sample_time(c, i, sample_rate)).sin(c),
    )
}

/// A saw of that frequency and detune at time `t`, -1..1.
#[verifier::allow_in_spec]
pub fn saw<K: Fn(Op, Width, u64, u64) -> u64>(c: &Calc<K>, freq: F32, detune: F32, t: F32) -> F32
    requires
        c.sound(),
    returns
        (single(0x4000_0000).mul(c, freq.mul(c, detune).mul(c, t).fract(c)).sub(c, single(0x3f80_0000))),
{
    single(0x4000_0000).mul(c, freq.mul(c, detune).mul(c, t).fract(c)).sub(c, single(0x3f80_0000))
}

/// Sample `i` of a stack of three detuned saws.
#[verifier::allow_in_spec]
pub fn saw_sample<K: Fn(Op, Width, u64, u64) -> u64>(c: &Calc<K>, freq: F32, sample_rate: u32, i: u64, n: u64) -> F32
    requires
        c.sound(),
    returns
        (single(0x3e80_0000).mul(c, edge_env(c, i, n, single(0x3d4c_cccd))).mul(
            c,
            single(0).add(c, saw(c, freq, single(0x3f80_0000), sample_time(c, i, sample_rate))).add(
                c,
                saw(c, freq, single(0x3f80_a3d7), sample_time(c, i, sample_rate)),
            ).add(c, saw(c, freq, single(0x3f7e_b852), sample_time(c, i, sample_rate))),
        )),
{
    single(0x3e80_0000).mul(c, edge_env(c, i, n, single(0x3d4c_cccd))).mul(
        c,
        single(0).add(c, saw(c, freq, single(0x3f80_0000), sample_time(c, i, sample_rate))).add(
            c,
            saw(c, freq, single(0x3f80_a3d7), sample_time(c, i, sample_rate)),
        ).add(c, saw(c, freq, single(0x3f7e_b852), sample_time(c, i, sample_rate))),
    )
}

/// The sample at a fractional index: between its neighbours, silent outside.
pub open spec fn interpolated<K: Fn(Op, Width, u64, u64) -> u64>(c: &Calc<K>, samples: Seq<F32>, idx: F64) -> F32 {
    let i = idx.to_size(c);
    if idx.lt(double(0)) || i + 1 >= samples.len() {
        single(0)
    } else {
        let frac = idx.sub(c, F64::of_count(c, i as u64)).to_f32(c);
        samples[i as int].mul(c, single(0x3f80_0000).sub(c, frac)).add(c, samples[i + 1].mul(c, frac))
    }
}

impl AudioClip {
    pub fn new(samples: Vec<F32>, sample_rate: u32) -> (r: AudioClip)
        ensures
            r.samples == samples,
            r.sample_rate == sample_rate,
    {
        AudioClip { samples, sample_rate }
    }

    pub fn duration<K: Fn(Op, Width, u64, u64) -> u64>(&self, c: &Calc<K>) -> (r: F64)
        requires
            c.sound(),
        ensures
            r == seconds(c, self.samples@.len(), self.sample_rate),
    {
        if self.sample_rate == 0 {
            double(0)
        } else {
            F64::of_count(c, self.samples.len() as u64).div(c, F64::of_count(c, self.sample_rate as u64))
        }
    }

    /// Test/demo tone: sine with a soft attack/release.
    pub fn sine<K: Fn(Op, Width, u64, u64) -> u64>(c: &Calc<K>, freq: F32, secs: F32, sample_rate: u32) -> (r: AudioClip)
        requires
            c.sound(),
        ensures
            r.sample_rate == sample_rate,
            r.samples@ == Seq::new(
                samples_in(c, secs, sample_rate) as nat,
                |i: int| sine_sample(c, freq, sample_rate, i as u64, samples_in(c, secs, sample_rate) as u64),
            ),
    {
        let n: usize = samples_in(c, secs, sample_rate);
        let mut samples: Vec<F32> = Vec::new();
        let mut i: usize = 0;
        while i < n
            invariant
                c.sound(),
                i <= n,
                samples@ =~= Seq::new(
                    i as nat,
                    |k: int| sine_sample(c, freq, sample_rate, k as u64, n as u64),
                ),
            decreases n - i,
        {
            samples.push(sine_sample(c, freq, sample_rate, i as u64, n as u64));
            i += 1;
        }
        AudioClip { samples, sample_rate }
    }

    /// Test/demo source: a few detuned saws — richer for filtering demos.
    pub fn saw_stack<K: Fn(Op, Width, u64, u64) -> u64>(c: &Calc<K>, freq: F32, secs: F32, sample_rate: u32) -> (r: AudioClip)
        requires
            c.sound(),
        ensures
            r.sample_rate == sample_rate,
            r.samples@ == Seq::new(
                samples_in(c, secs, sample_rate) as nat,
                |i: int| saw_sample(c, freq, sample_rate, i as u64, samples_in(c, secs, sample_rate) as u64),
            ),
    {
        let n: usize = samples_in(c, secs, sample_rate);
        let mut samples: Vec<F32> = Vec::new();
        let mut i: usize = 0;
        while i < n
            invariant
                c.sound(),
                i <= n,
                samples@ =~= Seq::new(
                    i as nat,
                    |k: int| saw_sample(c, freq, sample_rate, k as u64, n as u64),
                ),
            decreases n - i,
        {
            samples.push(saw_sample(c, freq, sample_rate, i as u64, n as u64));
            i += 1;
        }
        AudioClip { samples, sample_rate }
    }

    /// Return a filtered copy of this clip.
    pub fn filtered<K: Fn(Op, Width, u64, u64) -> u64>(&self, c: &Calc<K>, chain: &Vec<FilterSpec>) -> (r: AudioClip)
        requires
            c.sound(),
        ensures
            r.sample_rate == self.sample_rate,
            r.samples@ == chain_filtered(
                c,
                self.samples@,
                chain@,
                F32::of_count(c, self.sample_rate as u64),
            ),
    {
        let mut out: AudioClip = self.clone();
        apply_filter_chain(c, &mut out.samples, chain, F32::of_count(c, self.sample_rate as u64));
        out
    }

    pub fn sample_lerp<K: Fn(Op, Width, u64, u64) -> u64>(&self, c: &Calc<K>, idx: F64) -> (r: F32)
        requires
            c.sound(),
        ensures
            r == interpolated(c, self.samples@, idx),
    {
        if idx.lt(double(0)) {
            return single(0);
        }
        let i: usize = idx.to_size(c);
        let n: usize = self.samples.len();
        if n == 0 || i >= n - 1 {
            return single(0);
        }
        let frac: F32 = idx.sub(c, F64::of_count(c, i as u64)).to_f32(c);
        self.samples[i].mul(c, single(0x3f80_0000).sub(c, frac)).add(c, self.samples[i + 1].mul(c, frac))
    }
}

/// Interleaved-free stereo render target.
#[derive(Debug)]
pub struct StereoBuffer {
    pub left: Vec<F32>,
    pub right: Vec<F32>,
    pub sample_rate: u32,
}

impl Clone for StereoBuffer {
    fn clone(&self) -> (r: StereoBuffer)
        ensures
            r.left@ == self.left@,
            r.right@ == self.right@,
            r.sample_rate == self.sample_rate,
    {
        StereoBuffer {
            left: self.left.clone(),
            right: self.right.clone(),
            sample_rate: self.sample_rate,
        }
    }
}

/// One sample after soft clipping: beyond one it saturates, below it approaches one gently.
#[verifier::allow_in_spec]
pub fn soft_clipped<K: Fn(Op, Width, u64, u64) -> u64>(c: &Calc<K>, s: F32) -> F32
    requires
        c.sound(),
    returns
        (if single(0x3f80_0000).lt(s.abs()) {
            s.tanh(c)
        } else {
            s.tanh(c).mul(c, single(0x3e4c_cccd)).add(c, s.mul(c, single(0x3f4c_cccd)))
        }),
{
    if single(0x3f80_0000).lt(s.abs()) {
        s.tanh(c)
    } else {
        s.tanh(c).mul(c, single(0x3e4c_cccd)).add(c, s.mul(c, single(0x3f4c_cccd)))
    }
}

fn clip_all<K: Fn(Op, Width, u64, u64) -> u64>(c: &Calc<K>, ch: &mut Vec<F32>)
    requires
        c.sound(),
    ensures
        final(ch)@ == old(ch)@.map_values(|s: F32| soft_clipped(c, s)),
{
    let ghost before = ch@;
    let mut i: usize = 0;
    while i < ch.len()
        invariant
            c.sound(),
            i <= ch@.len(),
            ch@.len() == before.len(),
            forall|k: int| 0 <= k < i ==> ch@[k] == soft_clipped(c, before[k]),
            forall|k: int| i <= k < ch@.len() ==> ch@[k] == before[k],
        decreases ch.len() - i,
    {
        let s: F32 = ch[i];
        ch[i] = soft_clipped(c, s);
        i += 1;
    }
    assert(ch@ =~= before.map_values(|s: F32| soft_clipped(c, s)));
}

/// The greatest magnitude of `m` and the samples.
pub open spec fn peak_of(m: F32, s: Seq<F32>) -> F32
    decreases s.len(),
{
    if s.len() == 0 {
        m
    } else {
        peak_of(m, s.drop_last()).max(s.last().abs())
    }
}

fn peak_in(m: F32, s: &Vec<F32>) -> (r: F32)
    ensures
        r == peak_of(m, s@),
{
    let mut r: F32 = m;
    let mut i: usize = 0;
    while i < s.len()
        invariant
            i <= s@.len(),
            r == peak_of(m, s@.take(i as int)),
        decreases s.len() - i,
    {
        r = r.max(s[i].abs());
        assert(s@.take(i + 1).drop_last() =~= s@.take(i as int));
        i += 1;
    }
    assert(s@.take(i as int) =~= s@);
    r
}

/// `m` and the samples' squares, summed in order.
pub open spec fn power_of<K: Fn(Op, Width, u64, u64) -> u64>(c: &Calc<K>, m: F32, s: Seq<F32>) -> F32
    decreases s.len(),
{
    if s.len() == 0 {
        m
    } else {
        power_of(c, m, s.drop_last()).add(c, s.last().mul(c, s.last()))
    }
}

/// `m` and the samples' squares, summed in order.
pub fn power_in<K: Fn(Op, Width, u64, u64) -> u64>(c: &Calc<K>, m: F32, s: &[F32]) -> (r: F32)
    requires
        c.sound(),
    ensures
        r == power_of(c, m, s@),
{
    let mut r: F32 = m;
    let mut i: usize = 0;
    while i < s.len()
        invariant
            c.sound(),
            i <= s@.len(),
            r == power_of(c, m, s@.take(i as int)),
        decreases s.len() - i,
    {
        r = r.add(c, s[i].mul(c, s[i]));
        assert(s@.take(i + 1).drop_last() =~= s@.take(i as int));
        i += 1;
    }
    assert(s@.take(i as int) =~= s@);
    r
}

/// The root of the mean square of both channels.
pub open spec fn stereo_rms<K: Fn(Op, Width, u64, u64) -> u64>(c: &Calc<K>, left: Seq<F32>, right: Seq<F32>) -> F32 {
    power_of(c, power_of(c, single(0), left), right).div(
        c,
        F32::of_count(
            c,
            (if left.len() + right.len() < 1 {
                1
            } else {
                left.len() + right.len()
            }) as u64,
        ),
    ).sqrt(c)
}

impl StereoBuffer {
    /// Both channels have one length.
    pub open spec fn wf(self) -> bool {
        self.left@.len() == self.right@.len()
    }

    pub fn new<K: Fn(Op, Width, u64, u64) -> u64>(c: &Calc<K>, len_secs: F64, sample_rate: u32) -> (r: StereoBuffer)
        requires
            c.sound(),
        ensures
            r.wf(),
            r.sample_rate == sample_rate,
            r.left@ == Seq::new(
                len_secs.mul(c, F64::of_count(c, sample_rate as u64)).ceil(c).to_size(c) as nat,
                |i: int| single(0),
            ),
            r.right@ == r.left@,
    {
        let n: usize = len_secs.mul(c, F64::of_count(c, sample_rate as u64)).ceil(c).to_size(c);
        StereoBuffer { left: silence(n), right: silence(n), sample_rate }
    }

    pub fn len(&self) -> (r: usize)
        ensures
            r == self.left@.len(),
    {
        self.left.len()
    }

    pub fn is_empty(&self) -> (r: bool)
        ensures
            r == (self.left@.len() == 0),
    {
        self.left.len() == 0
    }

    pub fn duration<K: Fn(Op, Width, u64, u64) -> u64>(&self, c: &Calc<K>) -> (r: F64)
        requires
            c.sound(),
        ensures
            r == F64::of_count(c, self.left@.len() as u64).div(
                c,
                F64::of_count(c, self.sample_rate as u64),
            ),
    {
        F64::of_count(c, self.left.len() as u64).div(c, F64::of_count(c, self.sample_rate as u64))
    }

    /// Soft-clip the mix so hot grain clouds don't wrap.
    pub fn soft_clip<K: Fn(Op, Width, u64, u64) -> u64>(&mut self, c: &Calc<K>)
        requires
            c.sound(),
        ensures
            final(self).sample_rate == old(self).sample_rate,
            final(self).left@ == old(self).left@.map_values(|s: F32| soft_clipped(c, s)),
            final(self).right@ == old(self).right@.map_values(|s: F32| soft_clipped(c, s)),
    {
        clip_all(c, &mut self.left);
        clip_all(c, &mut self.right);
    }

    pub fn peak(&self) -> (r: F32)
        ensures
            r == peak_of(peak_of(single(0), self.left@), self.right@),
    {
        let l: F32 = peak_in(single(0), &self.left);
        peak_in(l, &self.right)
    }

    pub fn rms<K: Fn(Op, Width, u64, u64) -> u64>(&self, c: &Calc<K>) -> (r: F32)
        requires
            c.sound(),
            self.left@.len() + self.right@.len() <= usize::MAX,
        ensures
            r == stereo_rms(c, self.left@, self.right@),
    {
        let l: F32 = power_in(c, single(0), self.left.as_slice());
        let sum: F32 = power_in(c, l, self.right.as_slice());
        let n: usize = self.left.len() + self.right.len();
        sum.div(c, F32::of_count(c, if n < 1 { 1 } else { n as u64 })).sqrt(c)
    }

    /// Left and right samples in turn.
    pub fn interleaved(&self) -> (r: Vec<F32>)
        requires
            self.wf(),
        ensures
            r@ == Seq::new(
                2 * self.left@.len(),
                |i: int| if i % 2 == 0 {
                    self.left@[i / 2]
                } else {
                    self.right@[i / 2]
                },
            ),
    {
        let mut out: Vec<F32> = Vec::new();
        let mut i: usize = 0;
        while i < self.left.len()
            invariant
                self.wf(),
                i <= self.left@.len(),
                out@ =~= Seq::new(
                    (2 * i) as nat,
                    |k: int| if k % 2 == 0 {
                        self.left@[k / 2]
                    } else {
                        self.right@[k / 2]
                    },
                ),
            decreases self.left.len() - i,
        {
            out.push(self.left[i]);
            out.push(self.right[i]);
            i += 1;
        }
        out
    }
}

/// Where a grain starts in a buffer, samples.
#[verifier::allow_in_spec]
pub fn grain_start<K: Fn(Op, Width, u64, u64) -> u64>(c: &Calc<K>, ev: GrainEvent, rate: F64, t0: F64) -> i64
    requires
        c.sound(),
    returns
        (ev.onset.sub(c, t0).mul(c, rate).round(c).to_int(c)),
{
    ev.onset.sub(c, t0).mul(c, rate).round(c).to_int(c)
}

/// How many samples a grain lasts.
#[verifier::allow_in_spec]
pub fn grain_samples<K: Fn(Op, Width, u64, u64) -> u64>(c: &Calc<K>, ev: GrainEvent, rate: F64) -> i64
    requires
        c.sound(),
    returns
        (ev.duration.to_f64(c).mul(c, rate).to_int(c)),
{
    ev.duration.to_f64(c).mul(c, rate).to_int(c)
}

/// The angle of an equal-power pan.
#[verifier::allow_in_spec]
pub fn pan_angle<K: Fn(Op, Width, u64, u64) -> u64>(c: &Calc<K>, pan: F32) -> F32
    requires
        c.sound(),
    returns
        (pan.clamp(single(0xbf80_0000), single(0x3f80_0000)).add(c, single(0x3f80_0000)).mul(c, single(0x3f49_0fdb))),
{
    pan.clamp(single(0xbf80_0000), single(0x3f80_0000)).add(c, single(0x3f80_0000)).mul(c, single(0x3f49_0fdb))
}

/// How far into its source a grain reads at its sample `i`, source samples: backwards
/// from its end when it is reversed.
#[verifier::allow_in_spec]
pub fn read_offset<K: Fn(Op, Width, u64, u64) -> u64>(c: &Calc<K>, ev: GrainEvent, src_rate: F64, i: i64) -> F64
    requires
        c.sound(),
    returns
        (if ev.reverse {
            ev.duration.to_f64(c).mul(c, ev.pitch_ratio.to_f64(c)).mul(c, src_rate).sub(
                c,
                F64::of_int(c, i).mul(c, ev.pitch_ratio.to_f64(c)),
            )
        } else {
            F64::of_int(c, i).mul(c, ev.pitch_ratio.to_f64(c))
        }),
{
    if ev.reverse {
        ev.duration.to_f64(c).mul(c, ev.pitch_ratio.to_f64(c)).mul(c, src_rate).sub(
            c,
            F64::of_int(c, i).mul(c, ev.pitch_ratio.to_f64(c)),
        )
    } else {
        F64::of_int(c, i).mul(c, ev.pitch_ratio.to_f64(c))
    }
}

/// Sample `i` of a grain of `n` samples, before its gain.
pub open spec fn grain_sample<K: Fn(Op, Width, u64, u64) -> u64>(c: &Calc<K>, samples: Seq<F32>, src_rate: F64, ev: GrainEvent, i: i64, n: i64) -> F32 {
    let phase = F32::of_int(c, i).div(c, F32::of_int(c, n));
    interpolated(
        c,
        samples,
        ev.source_pos.mul(c, src_rate).add(c, read_offset(c, ev, src_rate, i)),
    ).mul(c, grain_env_skewed(c, phase, ev.envelope, ev.env_skew))
}

/// One channel after a grain is mixed in with gain `g`.
pub open spec fn grain_mixed<K: Fn(Op, Width, u64, u64) -> u64>(c: &Calc<K>, samples: Seq<F32>, src_rate: u32, ev: GrainEvent, buf: Seq<F32>, rate: u32, t0: F64, g: F32) -> Seq<F32> {
    let start = grain_start(c, ev, F64::of_count(c, rate as u64), t0);
    let n = grain_samples(c, ev, F64::of_count(c, rate as u64));
    Seq::new(
        buf.len(),
        |p: int| if start <= p < start + n {
            buf[p].add(
                c,
                grain_sample(
                    c,
                    samples,
                    F64::of_count(c, src_rate as u64),
                    ev,
                    (p - start) as i64,
                    n,
                ).mul(c, g),
            )
        } else {
            buf[p]
        },
    )
}

/// The left channel after a run of grains.
pub open spec fn left_mixed<K: Fn(Op, Width, u64, u64) -> u64>(c: &Calc<K>, samples: Seq<F32>, src_rate: u32, events: Seq<GrainEvent>, buf: Seq<F32>, rate: u32, t0: F64) -> Seq<F32>
    decreases events.len(),
{
    if events.len() == 0 {
        buf
    } else {
        let ev = events.last();
        grain_mixed(
            c,
            samples,
            src_rate,
            ev,
            left_mixed(c, samples, src_rate, events.drop_last(), buf, rate, t0),
            rate,
            t0,
            pan_angle(c, ev.pan).cos(c).mul(c, ev.gain),
        )
    }
}

/// The right channel after a run of grains.
pub open spec fn right_mixed<K: Fn(Op, Width, u64, u64) -> u64>(c: &Calc<K>, samples: Seq<F32>, src_rate: u32, events: Seq<GrainEvent>, buf: Seq<F32>, rate: u32, t0: F64) -> Seq<F32>
    decreases events.len(),
{
    if events.len() == 0 {
        buf
    } else {
        let ev = events.last();
        grain_mixed(
            c,
            samples,
            src_rate,
            ev,
            right_mixed(c, samples, src_rate, events.drop_last(), buf, rate, t0),
            rate,
            t0,
            pan_angle(c, ev.pan).sin(c).mul(c, ev.gain),
        )
    }
}

proof fn lemma_mixed_len<K: Fn(Op, Width, u64, u64) -> u64>(c: &Calc<K>, samples: Seq<F32>, src_rate: u32, events: Seq<GrainEvent>, l: Seq<F32>, r: Seq<F32>, rate: u32, t0: F64)
    ensures
        left_mixed(c, samples, src_rate, events, l, rate, t0).len() == l.len(),
        right_mixed(c, samples, src_rate, events, r, rate, t0).len() == r.len(),
    decreases events.len(),
{
    if events.len() > 0 {
        lemma_mixed_len(c, samples, src_rate, events.drop_last(), l, r, rate, t0);
    }
}

fn render_grain<K: Fn(Op, Width, u64, u64) -> u64>(c: &Calc<K>, clip: &AudioClip, ev: &GrainEvent, out: &mut StereoBuffer, t0: F64)
    requires
        c.sound(),
        old(out).wf(),
    ensures
        final(out).wf(),
        final(out).sample_rate == old(out).sample_rate,
        final(out).left@ == grain_mixed(
            c,
            clip.samples@,
            clip.sample_rate,
            *ev,
            old(out).left@,
            old(out).sample_rate,
            t0,
            pan_angle(c, ev.pan).cos(c).mul(c, ev.gain),
        ),
        final(out).right@ == grain_mixed(
            c,
            clip.samples@,
            clip.sample_rate,
            *ev,
            old(out).right@,
            old(out).sample_rate,
            t0,
            pan_angle(c, ev.pan).sin(c).mul(c, ev.gain),
        ),
{
    let rate: F64 = F64::of_count(c, out.sample_rate as u64);
    let src_rate: F64 = F64::of_count(c, clip.sample_rate as u64);
    let start: i64 = grain_start(c, *ev, rate, t0);
    let n: i64 = grain_samples(c, *ev, rate);
    let angle: F32 = pan_angle(c, ev.pan);
    let gain_l: F32 = angle.cos(c).mul(c, ev.gain);
    let gain_r: F32 = angle.sin(c).mul(c, ev.gain);
    let len: usize = out.left.len();
    let ghost sr = out.sample_rate;
    let ghost l0 = out.left@;
    let ghost r0 = out.right@;
    let ghost want_l = grain_mixed(c, clip.samples@, clip.sample_rate, *ev, l0, out.sample_rate, t0, gain_l);
    let ghost want_r = grain_mixed(c, clip.samples@, clip.sample_rate, *ev, r0, out.sample_rate, t0, gain_r);
    let end: i128 = start as i128 + n as i128;
    if n <= 0 || end < 0 || start as i128 >= len as i128 {
        assert(out.left@ =~= want_l);
        assert(out.right@ =~= want_r);
        return;
    }
    let from: usize = if start < 0 { 0 } else { start as usize };
    let to: usize = if end < len as i128 { end as usize } else { len };
    let mut p: usize = from;
    while p < to
        invariant
            c.sound(),
            from <= p,
            p <= to || p == from,
            to <= len,
            start <= from,
            to <= start + n,
            n > 0,
            out.sample_rate == sr,
            out.left@.len() == len,
            out.right@.len() == len,
            l0.len() == len,
            r0.len() == len,
            rate == F64::of_count(c, out.sample_rate as u64),
            src_rate == F64::of_count(c, clip.sample_rate as u64),
            start == grain_start(c, *ev, rate, t0),
            n == grain_samples(c, *ev, rate),
            want_l == grain_mixed(c, clip.samples@, clip.sample_rate, *ev, l0, out.sample_rate, t0, gain_l),
            want_r == grain_mixed(c, clip.samples@, clip.sample_rate, *ev, r0, out.sample_rate, t0, gain_r),
            forall|k: int| from <= k < p ==> out.left@[k] == want_l[k] && out.right@[k] == want_r[k],
            forall|k: int| 0 <= k < len && !(from <= k < p) ==> out.left@[k] == l0[k] && out.right@[k] == r0[k],
        decreases to - p,
    {
        let i: i64 = (p as i128 - start as i128) as i64;
        let phase: F32 = F32::of_int(c, i).div(c, F32::of_int(c, n));
        let env: F32 = grain_env_skewed(c, phase, ev.envelope, ev.env_skew);
        let at: F64 = ev.source_pos.mul(c, src_rate).add(c, read_offset(c, *ev, src_rate, i));
        let s: F32 = clip.sample_lerp(c, at).mul(c, env);
        assert(s == grain_sample(c, clip.samples@, src_rate, *ev, i, n));
        let l: F32 = out.left[p];
        let r: F32 = out.right[p];
        out.left[p] = l.add(c, s.mul(c, gain_l));
        out.right[p] = r.add(c, s.mul(c, gain_r));
        p += 1;
    }
    assert(out.left@ =~= want_l);
    assert(out.right@ =~= want_r);
}

/// Render a grain cloud from `clip` into `out`, offset so that timeline second
/// `t0` is sample 0 of the output buffer.
pub fn render_grains_audio<K: Fn(Op, Width, u64, u64) -> u64>(c: &Calc<K>, clip: &AudioClip, events: &Vec<GrainEvent>, out: &mut StereoBuffer, t0: F64)
    requires
        c.sound(),
        old(out).wf(),
    ensures
        final(out).wf(),
        final(out).sample_rate == old(out).sample_rate,
        final(out).left@ == left_mixed(c, clip.samples@, clip.sample_rate, events@, old(out).left@, old(out).sample_rate, t0),
        final(out).right@ == right_mixed(c, clip.samples@, clip.sample_rate, events@, old(out).right@, old(out).sample_rate, t0),
{
    let ghost l0 = out.left@;
    let ghost r0 = out.right@;
    let ghost rate = out.sample_rate;
    let mut k: usize = 0;
    while k < events.len()
        invariant
            c.sound(),
            k <= events@.len(),
            out.wf(),
            out.sample_rate == rate,
            out.left@ == left_mixed(c, clip.samples@, clip.sample_rate, events@.take(k as int), l0, rate, t0),
            out.right@ == right_mixed(c, clip.samples@, clip.sample_rate, events@.take(k as int), r0, rate, t0),
        decreases events.len() - k,
    {
        render_grain(c, clip, &events[k], out, t0);
        assert(events@.take(k + 1).drop_last() =~= events@.take(k as int));
        k += 1;
    }
    assert(events@.take(k as int) =~= events@);
}

/// No grains, no sound: rendering an empty cloud leaves the buffer as it is.
pub proof fn law_empty_clouds_are_silent<K: Fn(Op, Width, u64, u64) -> u64>(c: &Calc<K>, samples: Seq<F32>, src_rate: u32, buf: Seq<F32>, rate: u32, t0: F64)
    ensures
        left_mixed(c, samples, src_rate, seq![], buf, rate, t0) == buf,
        right_mixed(c, samples, src_rate, seq![], buf, rate, t0) == buf,
{
}

/// A grain changes only the samples that it covers.
pub proof fn law_grains_stay_in_their_span<K: Fn(Op, Width, u64, u64) -> u64>(c: &Calc<K>, samples: Seq<F32>, src_rate: u32, ev: GrainEvent, buf: Seq<F32>, rate: u32, t0: F64, g: F32, p: int)
    requires
        0 <= p < buf.len(),
        p < grain_start(c, ev, F64::of_count(c, rate as u64), t0) || grain_start(
            c,
            ev,
            F64::of_count(c, rate as u64),
            t0,
        ) + grain_samples(c, ev, F64::of_count(c, rate as u64)) <= p,
    ensures
        grain_mixed(c, samples, src_rate, ev, buf, rate, t0, g)[p] == buf[p],
{
}

/// Rendering in two runs is rendering the whole run: clouds add up in order.
pub proof fn law_clouds_render_in_order<K: Fn(Op, Width, u64, u64) -> u64>(c: &Calc<K>, samples: Seq<F32>, src_rate: u32, a: Seq<GrainEvent>, b: Seq<GrainEvent>, buf: Seq<F32>, rate: u32, t0: F64)
    ensures
        left_mixed(c, samples, src_rate, a + b, buf, rate, t0) == left_mixed(
            c,
            samples,
            src_rate,
            b,
            left_mixed(c, samples, src_rate, a, buf, rate, t0),
            rate,
            t0,
        ),
        right_mixed(c, samples, src_rate, a + b, buf, rate, t0) == right_mixed(
            c,
            samples,
            src_rate,
            b,
            right_mixed(c, samples, src_rate, a, buf, rate, t0),
            rate,
            t0,
        ),
    decreases b.len(),
{
    if b.len() == 0 {
        assert(a + b =~= a);
    } else {
        assert((a + b).drop_last() =~= a + b.drop_last());
        law_clouds_render_in_order(c, samples, src_rate, a, b.drop_last(), buf, rate, t0);
    }
}

} // verus!
