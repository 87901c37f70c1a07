//! The audio side of the effects: stateful, block-safe processors. The same
//! chain code serves offline rendering (one big block) and realtime performance
//! playback (a stream of small blocks): state persists across blocks.
use crate::audio::{silence, StereoBuffer};
use crate::calc::{Calc, Op, Width};
use crate::fx::{lerp, AvEffect, EffectKind, BYPASS, TRANSPARENT};
use crate::num::{single, F32};
use crate::spectral::{
    fresh_spectral, law_spectral_blocks_compose, law_spectral_blocks_never_underrun, spectral_block,
    SpectralState, SpectralView, SPECTRAL_N,
};
use crate::stream::{law_runs_compose, law_runs_keep_length, run};
use vstd::prelude::*;

verus! {

// ------------------------------------------------------------- bit crusher

/// One channel of a bit crusher: the value held, and how long it has been held.
#[derive(Clone, Copy, Debug)]
pub struct CrushState {
    pub hold: F32,
    pub phase: F32,
}

/// A bit crusher after one sample: every `factor` samples it takes a new value, rounded
/// to `levels` steps.
#[verifier::allow_in_spec]
pub fn crushed<K: Fn(Op, Width, u64, u64) -> u64>(c: &Calc<K>, factor: F32, levels: F32, s: CrushState, x: F32) -> CrushState
    requires
        c.sound(),
    returns
        (if factor.le(s.phase.add(c, single(0x3f80_0000))) {
            CrushState {
                hold: x.mul(c, levels).round(c).div(c, levels),
                phase: s.phase.add(c, single(0x3f80_0000)).sub(c, factor),
            }
        } else {
            CrushState { hold: s.hold, phase: s.phase.add(c, single(0x3f80_0000)) }
        }),
{
    if factor.le(s.phase.add(c, single(0x3f80_0000))) {
        CrushState {
            hold: x.mul(c, levels).round(c).div(c, levels),
            phase: s.phase.add(c, single(0x3f80_0000)).sub(c, factor),
        }
    } else {
        CrushState { hold: s.hold, phase: s.phase.add(c, single(0x3f80_0000)) }
    }
}

/// A bit crusher as a processor: it gives what it holds.
pub open spec fn crush_step<K: Fn(Op, Width, u64, u64) -> u64>(c: &Calc<K>, factor: F32, levels: F32) -> spec_fn(CrushState, F32) -> (CrushState, F32) {
    |s: CrushState, x: F32| (crushed(c, factor, levels, s, x), crushed(c, factor, levels, s, x).hold)
}

/// The hold factor of a crusher at an amount.
#[verifier::allow_in_spec]
pub fn crush_factor<K: Fn(Op, Width, u64, u64) -> u64>(c: &Calc<K>, downsample: F32, amount: F32) -> F32
    requires
        c.sound(),
    returns
        (lerp(c, single(0x3f80_0000), downsample, amount).max(single(0x3f80_0000))),
{
    lerp(c, single(0x3f80_0000), downsample, amount).max(single(0x3f80_0000))
}

/// The steps per unit that a crusher at an amount rounds to.
#[verifier::allow_in_spec]
pub fn crush_levels<K: Fn(Op, Width, u64, u64) -> u64>(c: &Calc<K>, bits: F32, amount: F32) -> F32
    requires
        c.sound(),
    returns
        (single(0x4000_0000).pow(c, lerp(c, single(0x4180_0000), bits, amount).limit(single(0x3f80_0000), single(0x4180_0000)).sub(c, single(0x3f80_0000)))),
{
    single(0x4000_0000).pow(c, lerp(c, single(0x4180_0000), bits, amount).limit(single(0x3f80_0000), single(0x4180_0000)).sub(c, single(0x3f80_0000)))
}

impl CrushState {
    fn process<K: Fn(Op, Width, u64, u64) -> u64>(&mut self, c: &Calc<K>, samples: &mut Vec<F32>, factor: F32, levels: F32)
        requires
            c.sound(),
        ensures
            run(crush_step(c, factor, levels), *old(self), old(samples)@) == (
                *final(self),
                final(samples)@,
            ),
    {
        let ghost given = samples@;
        let ghost first = *self;
        let mut i: usize = 0;
        while i < samples.len()
            invariant
                c.sound(),
                i <= samples@.len(),
                samples@.len() == given.len(),
                forall|j: int| i <= j < given.len() ==> samples@[j] == given[j],
                run(crush_step(c, factor, levels), first, given.take(i as int)) == (*self, samples@.take(i as int)),
            decreases samples.len() - i,
        {
            let x: F32 = samples[i];
            let ghost before = samples@;
            assert(given.take(i + 1).drop_last() =~= given.take(i as int));
            assert(given.take(i + 1).last() == x);
            *self = crushed(c, factor, levels, *self, x);
            let y: F32 = self.hold;
            samples.set(i, y);
            assert(samples@.take(i + 1) =~= before.take(i as int).push(y));
            i += 1;
        }
        assert(samples@.take(i as int) =~= samples@);
        assert(given.take(i as int) =~= given);
    }
}

// -------------------------------------------------------------- delay line

/// One channel of an echo: the samples that come back, and where the next is.
#[derive(Debug)]
pub struct DelayLine {
    pub ring: Vec<F32>,
    pub pos: usize,
}

/// What a delay line holds.
pub struct LineView {
    pub ring: Seq<F32>,
    pub pos: int,
}

impl View for DelayLine {
    type V = LineView;

    open spec fn view(&self) -> LineView {
        LineView { ring: self.ring@, pos: self.pos as int }
    }
}

/// A feedback delay as a processor.
pub open spec fn delay_step<K: Fn(Op, Width, u64, u64) -> u64>(c: &Calc<K>, feedback: F32, mix: F32) -> spec_fn(LineView, F32) -> (LineView, F32) {
    |s: LineView, x: F32|
        {
            let wet = s.ring[s.pos];
            (
                LineView {
                    ring: s.ring.update(s.pos, x.add(c, wet.mul(c, feedback))),
                    pos: (s.pos + 1) % s.ring.len() as int,
                },
                x.add(c, wet.mul(c, mix)),
            )
        }
}

impl DelayLine {
    /// The next sample to come back is there.
    pub open spec fn wf(self) -> bool {
        self.pos < self.ring@.len()
    }

    fn new(len: usize) -> (r: DelayLine)
        requires
            len > 0,
        ensures
            r.wf(),
            r@ == fresh_line(len as nat),
    {
        DelayLine { ring: silence(len), pos: 0 }
    }

    fn process<K: Fn(Op, Width, u64, u64) -> u64>(&mut self, c: &Calc<K>, samples: &mut Vec<F32>, feedback: F32, mix: F32)
        requires
            c.sound(),
            old(self).wf(),
        ensures
            final(self).wf(),
            run(delay_step(c, feedback, mix), old(self)@, old(samples)@) == (
                final(self)@,
                final(samples)@,
            ),
    {
        let ghost given = samples@;
        let ghost first = self@;
        let mut i: usize = 0;
        while i < samples.len()
            invariant
                c.sound(),
                i <= samples@.len(),
                samples@.len() == given.len(),
                self.wf(),
                forall|j: int| i <= j < given.len() ==> samples@[j] == given[j],
                run(delay_step(c, feedback, mix), first, given.take(i as int)) == (self@, samples@.take(i as int)),
            decreases samples.len() - i,
        {
            let x: F32 = samples[i];
            let ghost before = samples@;
            assert(given.take(i + 1).drop_last() =~= given.take(i as int));
            assert(given.take(i + 1).last() == x);
            let wet: F32 = self.ring[self.pos];
            let y: F32 = x.add(c, wet.mul(c, mix));
            let echo: F32 = x.add(c, wet.mul(c, feedback));
            self.ring.set(self.pos, echo);
            let n: usize = self.ring.len();
            self.pos = (self.pos + 1) % n;
            samples.set(i, y);
            assert(samples@.take(i + 1) =~= before.take(i as int).push(y));
            i += 1;
        }
        assert(samples@.take(i as int) =~= samples@);
        assert(given.take(i as int) =~= given);
    }
}

/// A silent delay line.
pub open spec fn fresh_line(len: nat) -> LineView {
    LineView { ring: Seq::new(len, |i: int| single(0)), pos: 0 }
}

// ------------------------------------------------------------------ reverb

/// A damped feedback comb filter.
#[derive(Debug)]
pub struct Comb {
    pub buf: Vec<F32>,
    pub i: usize,
    pub feedback: F32,
    pub damp: F32,
    pub store: F32,
}

/// What a comb filter holds.
pub struct CombView {
    pub line: LineView,
    pub feedback: F32,
    pub damp: F32,
    pub store: F32,
}

impl View for Comb {
    type V = CombView;

    open spec fn view(&self) -> CombView {
        CombView {
            line: LineView { ring: self.buf@, pos: self.i as int },
            feedback: self.feedback,
            damp: self.damp,
            store: self.store,
        }
    }
}

/// A comb filter after one sample. What it gives is what comes out of its line.
pub open spec fn combed<K: Fn(Op, Width, u64, u64) -> u64>(c: &Calc<K>, s: CombView, x: F32) -> CombView {
    let out = s.line.ring[s.line.pos];
    let store = out.mul(c, single(0x3f80_0000).sub(c, s.damp)).add(c, s.store.mul(c, s.damp));
    CombView {
        line: LineView {
            ring: s.line.ring.update(s.line.pos, x.add(c, store.mul(c, s.feedback))),
            pos: (s.line.pos + 1) % s.line.ring.len() as int,
        },
        store,
        ..s
    }
}

impl Comb {
    pub open spec fn wf(self) -> bool {
        self.i < self.buf@.len()
    }

    fn new(len: usize, feedback: F32, damp: F32) -> (r: Comb)
        ensures
            r.wf(),
            r@ == fresh_comb(len as nat, feedback, damp),
    {
        Comb {
            buf: silence(if len < 1 { 1 } else { len }),
            i: 0,
            feedback,
            damp,
            store: single(0),
        }
    }

    fn process<K: Fn(Op, Width, u64, u64) -> u64>(&mut self, c: &Calc<K>, x: F32) -> (r: F32)
        requires
            c.sound(),
            old(self).wf(),
        ensures
            final(self).wf(),
            final(self)@ == combed(c, old(self)@, x),
            r == old(self)@.line.ring[old(self)@.line.pos],
    {
        let out: F32 = self.buf[self.i];
        self.store = out.mul(c, single(0x3f80_0000).sub(c, self.damp)).add(c, self.store.mul(c, self.damp));
        let kept: F32 = x.add(c, self.store.mul(c, self.feedback));
        self.buf.set(self.i, kept);
        let n: usize = self.buf.len();
        self.i = (self.i + 1) % n;
        out
    }
}

/// A silent comb filter.
pub open spec fn fresh_comb(len: nat, feedback: F32, damp: F32) -> CombView {
    CombView {
        line: fresh_line(
            if len < 1 {
                1
            } else {
                len
            },
        ),
        feedback,
        damp,
        store: single(0),
    }
}

/// An all-pass filter.
#[derive(Debug)]
pub struct AllPass {
    pub buf: Vec<F32>,
    pub i: usize,
}

impl View for AllPass {
    type V = LineView;

    open spec fn view(&self) -> LineView {
        LineView { ring: self.buf@, pos: self.i as int }
    }
}

/// An all-pass filter after one sample.
pub open spec fn passed<K: Fn(Op, Width, u64, u64) -> u64>(c: &Calc<K>, s: LineView, x: F32) -> LineView {
    LineView {
        ring: s.ring.update(s.pos, x.add(c, s.ring[s.pos].mul(c, single(0x3f00_0000)))),
        pos: (s.pos + 1) % s.ring.len() as int,
    }
}

impl AllPass {
    pub open spec fn wf(self) -> bool {
        self.i < self.buf@.len()
    }

    fn new(len: usize) -> (r: AllPass)
        ensures
            r.wf(),
            r@ == fresh_line(
                if len < 1 {
                    1
                } else {
                    len as nat
                },
            ),
    {
        AllPass { buf: silence(if len < 1 { 1 } else { len }), i: 0 }
    }

    fn process<K: Fn(Op, Width, u64, u64) -> u64>(&mut self, c: &Calc<K>, x: F32) -> (r: F32)
        requires
            c.sound(),
            old(self).wf(),
        ensures
            final(self).wf(),
            final(self)@ == passed(c, old(self)@, x),
            r == x.minus().add(c, old(self)@.ring[old(self)@.pos]),
    {
        let b: F32 = self.buf[self.i];
        let out: F32 = x.minus().add(c, b);
        let kept: F32 = x.add(c, b.mul(c, single(0x3f00_0000)));
        self.buf.set(self.i, kept);
        let n: usize = self.buf.len();
        self.i = (self.i + 1) % n;
        out
    }
}

/// Freeverb-style reverb tank for one channel (4 combs + 2 allpasses).
#[derive(Debug)]
pub struct ReverbChannel {
    pub combs: Vec<Comb>,
    pub aps: Vec<AllPass>,
}

/// What a reverb tank holds.
pub struct TankView {
    pub combs: Seq<CombView>,
    pub aps: Seq<LineView>,
}

impl View for ReverbChannel {
    type V = TankView;

    open spec fn view(&self) -> TankView {
        TankView {
            combs: Seq::new(self.combs@.len(), |k: int| self.combs@[k]@),
            aps: Seq::new(self.aps@.len(), |k: int| self.aps@[k]@),
        }
    }
}

/// What the first `n` comb filters give together.
pub open spec fn comb_sum<K: Fn(Op, Width, u64, u64) -> u64>(c: &Calc<K>, combs: Seq<CombView>, n: int) -> F32
    decreases n,
{
    if n <= 0 {
        single(0)
    } else {
        comb_sum(c, combs, n - 1).add(c, combs[n - 1].line.ring[combs[n - 1].line.pos])
    }
}

/// What the first `n` all-pass filters make of a sample, one after the other.
pub open spec fn pass_chain<K: Fn(Op, Width, u64, u64) -> u64>(c: &Calc<K>, aps: Seq<LineView>, x: F32, n: int) -> F32
    decreases n,
{
    if n <= 0 {
        x
    } else {
        pass_chain(c, aps, x, n - 1).minus().add(c, aps[n - 1].ring[aps[n - 1].pos])
    }
}

/// A reverb tank as a processor.
pub open spec fn tank_step<K: Fn(Op, Width, u64, u64) -> u64>(c: &Calc<K>, mix: F32) -> spec_fn(TankView, F32) -> (TankView, F32) {
    |s: TankView, x: F32|
        {
            let wet = comb_sum(c, s.combs, s.combs.len() as int);
            (
                TankView {
                    combs: Seq::new(
                        s.combs.len(),
                        |k: int| combed(c, s.combs[k], x.mul(c, single(0x3e80_0000))),
                    ),
                    aps: Seq::new(
                        s.aps.len(),
                        |k: int| passed(c, s.aps[k], pass_chain(c, s.aps, wet, k)),
                    ),
                },
                x.add(c, pass_chain(c, s.aps, wet, s.aps.len() as int).mul(c, mix)),
            )
        }
}

/// The length of a filter's line at a sample rate.
#[verifier::allow_in_spec]
pub fn line_length<K: Fn(Op, Width, u64, u64) -> u64>(c: &Calc<K>, t: F32, offset: F32, sample_rate: u32) -> usize
    requires
        c.sound(),
    returns
        (t.add(c, offset).mul(c, F32::of_count(c, sample_rate as u64).div(c, single(0x472c_4400))).to_size(c)),
{
    t.add(c, offset).mul(c, F32::of_count(c, sample_rate as u64).div(c, single(0x472c_4400))).to_size(c)
}

/// The feedback of a reverb of that size.
#[verifier::allow_in_spec]
pub fn tank_feedback<K: Fn(Op, Width, u64, u64) -> u64>(c: &Calc<K>, size: F32) -> F32
    requires
        c.sound(),
    returns
        (single(0x3f33_3333).add(c, single(0x3e8f_5c29).mul(c, size.limit(single(0), single(0x3f80_0000))))),
{
    single(0x3f33_3333).add(c, single(0x3e8f_5c29).mul(c, size.limit(single(0), single(0x3f80_0000))))
}

/// The damping of a reverb.
#[verifier::allow_in_spec]
pub fn tank_damp<K: Fn(Op, Width, u64, u64) -> u64>(c: &Calc<K>, damp: F32) -> F32
    requires
        c.sound(),
    returns
        (damp.limit(single(0), single(0x3f80_0000)).mul(c, single(0x3f4c_cccd))),
{
    damp.limit(single(0), single(0x3f80_0000)).mul(c, single(0x3f4c_cccd))
}

/// A silent reverb tank.
pub open spec fn fresh_tank<K: Fn(Op, Width, u64, u64) -> u64>(c: &Calc<K>, sample_rate: u32, size: F32, damp: F32, offset: F32) -> TankView {
    let times = seq![single(0x448b_8000), single(0x4494_8000), single(0x449f_a000), single(0x44a9_8000)];
    let passes = seq![single(0x440b_0000), single(0x43dc_8000)];
    TankView {
        combs: Seq::new(
            4,
            |k: int|
                fresh_comb(
                    line_length(c, times[k], offset, sample_rate) as nat,
                    tank_feedback(c, size),
                    tank_damp(c, damp),
                ),
        ),
        aps: Seq::new(
            2,
            |k: int|
                {
                    let n = line_length(c, passes[k], offset, sample_rate);
                    fresh_line(
                        if n < 1 {
                            1
                        } else {
                            n as nat
                        },
                    )
                },
        ),
    }
}

impl ReverbChannel {
    /// Every filter's line is in order.
    pub open spec fn wf(self) -> bool {
        &&& forall|k: int| 0 <= k < self.combs@.len() ==> (#[trigger] self.combs@[k]).wf()
        &&& forall|k: int| 0 <= k < self.aps@.len() ==> (#[trigger] self.aps@[k]).wf()
    }

    pub fn new<K: Fn(Op, Width, u64, u64) -> u64>(c: &Calc<K>, sample_rate: u32, size: F32, damp: F32, offset: F32) -> (r: ReverbChannel)
        requires
            c.sound(),
        ensures
            r.wf(),
            r@ == fresh_tank(c, sample_rate, size, damp, offset),
    {
        let feedback: F32 = tank_feedback(c, size);
        let damp_to: F32 = tank_damp(c, damp);
        let mut combs: Vec<Comb> = Vec::new();
        combs.push(Comb::new(line_length(c, single(0x448b_8000), offset, sample_rate), feedback, damp_to));
        combs.push(Comb::new(line_length(c, single(0x4494_8000), offset, sample_rate), feedback, damp_to));
        combs.push(Comb::new(line_length(c, single(0x449f_a000), offset, sample_rate), feedback, damp_to));
        combs.push(Comb::new(line_length(c, single(0x44a9_8000), offset, sample_rate), feedback, damp_to));
        let mut aps: Vec<AllPass> = Vec::new();
        aps.push(AllPass::new(line_length(c, single(0x440b_0000), offset, sample_rate)));
        aps.push(AllPass::new(line_length(c, single(0x43dc_8000), offset, sample_rate)));
        let r: ReverbChannel = ReverbChannel { combs, aps };
        assert(r@.combs =~= fresh_tank(c, sample_rate, size, damp, offset).combs);
        assert(r@.aps =~= fresh_tank(c, sample_rate, size, damp, offset).aps);
        r
    }

    fn process_one<K: Fn(Op, Width, u64, u64) -> u64>(&mut self, c: &Calc<K>, x: F32, mix: F32) -> (r: F32)
        requires
            c.sound(),
            old(self).wf(),
        ensures
            final(self).wf(),
            (final(self)@, r) == tank_step(c, mix)(old(self)@, x),
    {
        let ghost first = self@;
        let input: F32 = x.mul(c, single(0x3e80_0000));
        let mut wet: F32 = single(0);
        let mut k: usize = 0;
        while k < self.combs.len()
            invariant
                c.sound(),
                self.wf(),
                k <= self.combs@.len(),
                self@.combs.len() == first.combs.len(),
                self@.aps == first.aps,
                wet == comb_sum(c, first.combs, k as int),
                forall|j: int|
                    0 <= j < k ==> self@.combs[j] == combed(c, first.combs[j], input),
                forall|j: int| k <= j < first.combs.len() ==> self@.combs[j] == first.combs[j],
            decreases self.combs.len() - k,
        {
            let ghost before = *self;
            assert(self@.combs[k as int] == self.combs@[k as int]@);
            let o: F32 = self.combs[k].process(c, input);
            wet = wet.add(c, o);
            proof {
                assert(self@.aps =~= before@.aps);
                assert forall|j: int| 0 <= j < first.combs.len() && j != k implies self@.combs[j]
                    == before@.combs[j] by {}
                assert(self@.combs[k as int] == self.combs@[k as int]@);
                assert forall|j: int| 0 <= j < k + 1 implies self@.combs[j] == combed(
                    c,
                    first.combs[j],
                    input,
                ) by {
                    if j < k {
                        assert(before@.combs[j] == combed(c, first.combs[j], input));
                    }
                }
            }
            k += 1;
        }
        let ghost sum = wet;
        let ghost after = self@.combs;
        let mut m: usize = 0;
        while m < self.aps.len()
            invariant
                c.sound(),
                self.wf(),
                m <= self.aps@.len(),
                self@.aps.len() == first.aps.len(),
                self@.combs == after,
                wet == pass_chain(c, first.aps, sum, m as int),
                forall|j: int|
                    0 <= j < m ==> self@.aps[j] == passed(
                        c,
                        first.aps[j],
                        pass_chain(c, first.aps, sum, j),
                    ),
                forall|j: int| m <= j < first.aps.len() ==> self@.aps[j] == first.aps[j],
            decreases self.aps.len() - m,
        {
            let ghost before = *self;
            assert(self@.aps[m as int] == self.aps@[m as int]@);
            wet = self.aps[m].process(c, wet);
            proof {
                assert(self@.combs =~= before@.combs);
                assert forall|j: int| 0 <= j < first.aps.len() && j != m implies self@.aps[j]
                    == before@.aps[j] by {}
                assert(self@.aps[m as int] == self.aps@[m as int]@);
                assert forall|j: int| 0 <= j < m + 1 implies self@.aps[j] == passed(
                    c,
                    first.aps[j],
                    pass_chain(c, first.aps, sum, j),
                ) by {
                    if j < m {
                        assert(before@.aps[j] == passed(
                            c,
                            first.aps[j],
                            pass_chain(c, first.aps, sum, j),
                        ));
                    }
                }
            }
            m += 1;
        }
        proof {
            let want = tank_step(c, mix)(first, x).0;
            assert(self@.combs =~= want.combs);
            assert(self@.aps =~= want.aps);
        }
        x.add(c, wet.mul(c, mix))
    }

    fn process<K: Fn(Op, Width, u64, u64) -> u64>(&mut self, c: &Calc<K>, samples: &mut Vec<F32>, mix: F32)
        requires
            c.sound(),
            old(self).wf(),
        ensures
            final(self).wf(),
            run(tank_step(c, mix), old(self)@, old(samples)@) == (final(self)@, final(samples)@),
    {
        let ghost given = samples@;
        let ghost first = self@;
        let mut i: usize = 0;
        while i < samples.len()
            invariant
                c.sound(),
                i <= samples@.len(),
                samples@.len() == given.len(),
                self.wf(),
                forall|j: int| i <= j < given.len() ==> samples@[j] == given[j],
                run(tank_step(c, mix), first, given.take(i as int)) == (self@, samples@.take(i as int)),
            decreases samples.len() - i,
        {
            let x: F32 = samples[i];
            let ghost before = samples@;
            assert(given.take(i + 1).drop_last() =~= given.take(i as int));
            assert(given.take(i + 1).last() == x);
            let y: F32 = self.process_one(c, x, mix);
            samples.set(i, y);
            assert(samples@.take(i + 1) =~= before.take(i as int).push(y));
            i += 1;
        }
        assert(samples@.take(i as int) =~= samples@);
        assert(given.take(i as int) =~= given);
    }
}

// ------------------------------------------------------------------- chains

/// Persistent state for one audio effect instance, for each channel.
#[derive(Debug)]
#[allow(inconsistent_fields)]
pub enum AudioFxState {
    Crush { left: CrushState, right: CrushState },
    Delay { left: DelayLine, right: DelayLine },
    Reverb { left: ReverbChannel, right: ReverbChannel },
    Compress { left: SpectralState, right: SpectralState },
}

/// What an effect's state holds.
#[allow(inconsistent_fields)]
pub enum FxView {
    Crush { left: CrushState, right: CrushState },
    Delay { left: LineView, right: LineView },
    Reverb { left: TankView, right: TankView },
    Compress { left: SpectralView, right: SpectralView },
}

impl View for AudioFxState {
    type V = FxView;

    open spec fn view(&self) -> FxView {
        match *self {
            AudioFxState::Crush { left, right } => FxView::Crush { left, right },
            AudioFxState::Delay { left, right } => FxView::Delay { left: left@, right: right@ },
            AudioFxState::Reverb { left, right } => FxView::Reverb { left: left@, right: right@ },
            AudioFxState::Compress { left, right } => FxView::Compress {
                left: left@,
                right: right@,
            },
        }
    }
}

impl AudioFxState {
    /// Both channels are in order.
    pub open spec fn wf(self) -> bool {
        match self {
            AudioFxState::Crush { left, right } => true,
            AudioFxState::Delay { left, right } => left.wf() && right.wf(),
            AudioFxState::Reverb { left, right } => left.wf() && right.wf(),
            AudioFxState::Compress { left, right } => left@.wf() && right@.wf(),
        }
    }
}

/// Whether a state is one for that kind of effect.
pub open spec fn fits(kind: EffectKind, s: FxView) -> bool {
    match kind {
        EffectKind::Crush { .. } => s is Crush,
        EffectKind::Delay { .. } => s is Delay,
        EffectKind::Reverb { .. } => s is Reverb,
        EffectKind::Compress { .. } => s is Compress && s->Compress_left.wf()
            && s->Compress_right.wf(),
    }
}

/// The length of an echo's line: at least one sample.
#[verifier::allow_in_spec]
pub fn echo_length<K: Fn(Op, Width, u64, u64) -> u64>(c: &Calc<K>, time: F32, sample_rate: u32) -> usize
    requires
        c.sound(),
    returns
        (if time.mul(c, F32::of_count(c, sample_rate as u64)).to_size(c) < 1 {
            1
        } else {
            time.mul(c, F32::of_count(c, sample_rate as u64)).to_size(c)
        }),
{
    if time.mul(c, F32::of_count(c, sample_rate as u64)).to_size(c) < 1 {
        1
    } else {
        time.mul(c, F32::of_count(c, sample_rate as u64)).to_size(c)
    }
}

/// The state that an effect starts with.
pub open spec fn fresh_state<K: Fn(Op, Width, u64, u64) -> u64>(c: &Calc<K>, kind: EffectKind, sample_rate: u32) -> FxView {
    match kind {
        EffectKind::Crush { .. } => {
            let s = CrushState { hold: single(0), phase: single(0) };
            FxView::Crush { left: s, right: s }
        },
        EffectKind::Delay { time, .. } => {
            let s = fresh_line(echo_length(c, time, sample_rate) as nat);
            FxView::Delay { left: s, right: s }
        },
        EffectKind::Reverb { size, damp, .. } => FxView::Reverb {
            left: fresh_tank(c, sample_rate, size, damp, single(0)),
            right: fresh_tank(c, sample_rate, size, damp, single(0x41b8_0000)),
        },
        EffectKind::Compress { .. } => FxView::Compress {
            left: fresh_spectral(),
            right: fresh_spectral(),
        },
    }
}

fn make_state<K: Fn(Op, Width, u64, u64) -> u64>(c: &Calc<K>, kind: EffectKind, sample_rate: u32) -> (r: AudioFxState)
    requires
        c.sound(),
    ensures
        r.wf(),
        r@ == fresh_state(c, kind, sample_rate),
{
    match kind {
        EffectKind::Crush { .. } => {
            let s: CrushState = CrushState { hold: single(0), phase: single(0) };
            AudioFxState::Crush { left: s, right: s }
        },
        EffectKind::Delay { time, .. } => {
            let d: usize = echo_length(c, time, sample_rate);
            AudioFxState::Delay { left: DelayLine::new(d), right: DelayLine::new(d) }
        },
        EffectKind::Reverb { size, damp, .. } => AudioFxState::Reverb {
            left: ReverbChannel::new(c, sample_rate, size, damp, single(0)),
            right: ReverbChannel::new(c, sample_rate, size, damp, single(0x41b8_0000)),
        },
        EffectKind::Compress { .. } => AudioFxState::Compress {
            left: SpectralState::new(),
            right: SpectralState::new(),
        },
    }
}

/// The states that a chain starts with.
pub open spec fn fresh_states<K: Fn(Op, Width, u64, u64) -> u64>(c: &Calc<K>, chain: Seq<AvEffect>, sample_rate: u32) -> Seq<FxView> {
    chain.map_values(|fx: AvEffect| fresh_state(c, fx.kind, sample_rate))
}

/// What a run of states holds.
pub open spec fn states_view(states: Seq<AudioFxState>) -> Seq<FxView> {
    states.map_values(|s: AudioFxState| s@)
}

/// Whether every state is in order.
pub open spec fn states_wf(states: Seq<AudioFxState>) -> bool {
    forall|i: int| 0 <= i < states.len() ==> (#[trigger] states[i]).wf()
}

/// Whether the states, as far as there are any, are those for a chain.
pub open spec fn chain_fits(chain: Seq<AvEffect>, states: Seq<FxView>) -> bool {
    forall|i: int|
        0 <= i < chain.len() && i < states.len() ==> fits(chain[i].kind, #[trigger] states[i])
}

/// Build fresh states for a chain. Rebuild whenever the chain's shape or
/// its time-structuring params (delay time, reverb size) change.
pub fn audio_chain_states<K: Fn(Op, Width, u64, u64) -> u64>(c: &Calc<K>, chain: &Vec<AvEffect>, sample_rate: u32) -> (r: Vec<AudioFxState>)
    requires
        c.sound(),
    ensures
        states_wf(r@),
        states_view(r@) == fresh_states(c, chain@, sample_rate),
        chain_fits(chain@, states_view(r@)),
{
    let mut out: Vec<AudioFxState> = Vec::new();
    let mut i: usize = 0;
    while i < chain.len()
        invariant
            c.sound(),
            i <= chain@.len(),
            states_wf(out@),
            states_view(out@) =~= fresh_states(c, chain@, sample_rate).take(i as int),
        decreases chain.len() - i,
    {
        let s: AudioFxState = make_state(c, chain[i].kind, sample_rate);
        let ghost before = out@;
        out.push(s);
        assert(states_view(out@) =~= states_view(before).push(s@));
        i += 1;
    }
    out
}

/// Whether an effect is a compressor that is switched on.
#[verifier::allow_in_spec]
pub fn compresses<K: Fn(Op, Width, u64, u64) -> u64>(c: &Calc<K>, fx: AvEffect) -> bool
    requires
        c.sound(),
    returns
        (match fx.kind {
            EffectKind::Compress { quality } => !fx.audio.le(single(BYPASS)) && !single(TRANSPARENT).le(
                lerp(c, single(0x3f80_0000), quality, fx.audio),
            ),
            _ => false,
        }),
{
    match fx.kind {
        EffectKind::Compress { quality } => !fx.audio.le(single(BYPASS)) && !single(TRANSPARENT).le(
            lerp(c, single(0x3f80_0000), quality, fx.audio),
        ),
        _ => false,
    }
}

/// How many effects of a chain compress.
pub open spec fn compressors<K: Fn(Op, Width, u64, u64) -> u64>(c: &Calc<K>, chain: Seq<AvEffect>) -> nat
    decreases chain.len(),
{
    if chain.len() == 0 {
        0
    } else {
        compressors(c, chain.drop_last()) + if compresses(c, chain.last()) {
            1nat
        } else {
            0
        }
    }
}

proof fn lemma_compressors<K: Fn(Op, Width, u64, u64) -> u64>(c: &Calc<K>, chain: Seq<AvEffect>, n: int)
    requires
        0 <= n <= chain.len(),
    ensures
        compressors(c, chain.take(n)) <= compressors(c, chain),
        compressors(c, chain) <= chain.len(),
    decreases chain.len(),
{
    if n < chain.len() {
        lemma_compressors(c, chain.drop_last(), n);
        assert(chain.drop_last().take(n) =~= chain.take(n));
    } else {
        assert(chain.take(n) =~= chain);
        if chain.len() > 0 {
            lemma_compressors(c, chain.drop_last(), n - 1);
        }
    }
}

/// Samples of latency the chain introduces (spectral compression is
/// windowed and cannot be zero-latency in a stream).
pub fn audio_chain_latency<K: Fn(Op, Width, u64, u64) -> u64>(c: &Calc<K>, chain: &Vec<AvEffect>) -> (r: usize)
    requires
        c.sound(),
        compressors(c, chain@) * SPECTRAL_N <= usize::MAX,
    ensures
        r == compressors(c, chain@) * SPECTRAL_N,
{
    let mut n: usize = 0;
    let mut i: usize = 0;
    while i < chain.len()
        invariant
            c.sound(),
            i <= chain@.len(),
            compressors(c, chain@) * SPECTRAL_N <= usize::MAX,
            n == compressors(c, chain@.take(i as int)) * SPECTRAL_N,
        decreases chain.len() - i,
    {
        assert(chain@.take(i + 1).drop_last() =~= chain@.take(i as int));
        proof {
            lemma_compressors(c, chain@, i + 1);
        }
        if compresses(c, chain[i]) {
            n += SPECTRAL_N;
        }
        i += 1;
    }
    assert(chain@.take(i as int) =~= chain@);
    n
}

/// What an effect makes of a block of both channels.
pub open spec fn effect_block<K: Fn(Op, Width, u64, u64) -> u64>(c: &Calc<K>, fx: AvEffect, s: FxView, l: Seq<F32>, r: Seq<F32>) -> (FxView, Seq<F32>, Seq<F32>) {
    if fx.audio.le(single(BYPASS)) {
        (s, l, r)
    } else {
        match (fx.kind, s) {
            (EffectKind::Crush { downsample, bits }, FxView::Crush { left, right }) => {
                let step = crush_step(
                    c,
                    crush_factor(c, downsample, fx.audio),
                    crush_levels(c, bits, fx.audio),
                );
                let a = run(step, left, l);
                let b = run(step, right, r);
                (FxView::Crush { left: a.0, right: b.0 }, a.1, b.1)
            },
            (EffectKind::Delay { feedback, mix, .. }, FxView::Delay { left, right }) => {
                let step = delay_step(c, feedback, mix.mul(c, fx.audio));
                let a = run(step, left, l);
                let b = run(step, right, r);
                (FxView::Delay { left: a.0, right: b.0 }, a.1, b.1)
            },
            (EffectKind::Reverb { mix, .. }, FxView::Reverb { left, right }) => {
                let step = tank_step(c, mix.mul(c, fx.audio));
                let a = run(step, left, l);
                let b = run(step, right, r);
                (FxView::Reverb { left: a.0, right: b.0 }, a.1, b.1)
            },
            (EffectKind::Compress { quality }, FxView::Compress { left, right }) => {
                let q = lerp(c, single(0x3f80_0000), quality, fx.audio);
                if single(TRANSPARENT).le(q) {
                    (s, l, r)
                } else {
                    let a = spectral_block(c, q.limit(single(0), single(0x3f80_0000)), left, l);
                    let b = spectral_block(c, q.limit(single(0), single(0x3f80_0000)), right, r);
                    (FxView::Compress { left: a.0, right: b.0 }, a.1, b.1)
                }
            },
            _ => (s, l, r),
        }
    }
}

/// What the first `n` effects of a chain make of a block of both channels.
pub open spec fn chain_block<K: Fn(Op, Width, u64, u64) -> u64>(c: &Calc<K>, chain: Seq<AvEffect>, states: Seq<FxView>, l: Seq<F32>, r: Seq<F32>, n: int) -> (Seq<FxView>, Seq<F32>, Seq<F32>)
    decreases n,
{
    if n <= 0 {
        (states, l, r)
    } else {
        let (s, a, b) = chain_block(c, chain, states, l, r, n - 1);
        let (t, x, y) = effect_block(c, chain[n - 1], s[n - 1], a, b);
        (s.update(n - 1, t), x, y)
    }
}

/// How many effects of a chain have a state.
pub open spec fn stated(chain: nat, states: nat) -> int {
    if chain < states {
        chain as int
    } else {
        states as int
    }
}

/// An effect keeps the length of both channels, and its state fits on.
pub proof fn law_effects_keep_length<K: Fn(Op, Width, u64, u64) -> u64>(c: &Calc<K>, fx: AvEffect, s: FxView, l: Seq<F32>, r: Seq<F32>)
    requires
        fits(fx.kind, s),
    ensures
        effect_block(c, fx, s, l, r).1.len() == l.len(),
        effect_block(c, fx, s, l, r).2.len() == r.len(),
        fits(fx.kind, effect_block(c, fx, s, l, r).0),
{
    match (fx.kind, s) {
        (EffectKind::Crush { downsample, bits }, FxView::Crush { left, right }) => {
            let step = crush_step(
                c,
                crush_factor(c, downsample, fx.audio),
                crush_levels(c, bits, fx.audio),
            );
            law_runs_keep_length(step, left, l);
            law_runs_keep_length(step, right, r);
        },
        (EffectKind::Delay { feedback, mix, .. }, FxView::Delay { left, right }) => {
            let step = delay_step(c, feedback, mix.mul(c, fx.audio));
            law_runs_keep_length(step, left, l);
            law_runs_keep_length(step, right, r);
        },
        (EffectKind::Reverb { mix, .. }, FxView::Reverb { left, right }) => {
            let step = tank_step(c, mix.mul(c, fx.audio));
            law_runs_keep_length(step, left, l);
            law_runs_keep_length(step, right, r);
        },
        (EffectKind::Compress { quality }, FxView::Compress { left, right }) => {
            let q = lerp(c, single(0x3f80_0000), quality, fx.audio).limit(single(0), single(0x3f80_0000));
            law_spectral_blocks_never_underrun(c, q, left, l);
            law_spectral_blocks_never_underrun(c, q, right, r);
        },
        _ => {},
    }
}

/// Two blocks through an effect, one after the other, give what the one block made
/// of both gives.
pub proof fn law_effects_stream<K: Fn(Op, Width, u64, u64) -> u64>(c: &Calc<K>, fx: AvEffect, s: FxView, l1: Seq<F32>, r1: Seq<F32>, l2: Seq<F32>, r2: Seq<F32>)
    requires
        fits(fx.kind, s),
    ensures
        ({
            let one = effect_block(c, fx, s, l1, r1);
            let two = effect_block(c, fx, one.0, l2, r2);
            effect_block(c, fx, s, l1 + l2, r1 + r2) == (two.0, one.1 + two.1, one.2 + two.2)
        }),
{
    match (fx.kind, s) {
        (EffectKind::Crush { downsample, bits }, FxView::Crush { left, right }) => {
            let step = crush_step(
                c,
                crush_factor(c, downsample, fx.audio),
                crush_levels(c, bits, fx.audio),
            );
            law_runs_compose(step, left, l1, l2);
            law_runs_compose(step, right, r1, r2);
        },
        (EffectKind::Delay { feedback, mix, .. }, FxView::Delay { left, right }) => {
            let step = delay_step(c, feedback, mix.mul(c, fx.audio));
            law_runs_compose(step, left, l1, l2);
            law_runs_compose(step, right, r1, r2);
        },
        (EffectKind::Reverb { mix, .. }, FxView::Reverb { left, right }) => {
            let step = tank_step(c, mix.mul(c, fx.audio));
            law_runs_compose(step, left, l1, l2);
            law_runs_compose(step, right, r1, r2);
        },
        (EffectKind::Compress { quality }, FxView::Compress { left, right }) => {
            let q = lerp(c, single(0x3f80_0000), quality, fx.audio).limit(single(0), single(0x3f80_0000));
            law_spectral_blocks_compose(c, q, left, l1, l2);
            law_spectral_blocks_compose(c, q, right, r1, r2);
        },
        _ => {},
    }
}

proof fn lemma_chain_fits<K: Fn(Op, Width, u64, u64) -> u64>(c: &Calc<K>, chain: Seq<AvEffect>, states: Seq<FxView>, l: Seq<F32>, r: Seq<F32>, n: int)
    requires
        chain_fits(chain, states),
        0 <= n <= stated(chain.len(), states.len()),
    ensures
        chain_fits(chain, chain_block(c, chain, states, l, r, n).0),
        chain_block(c, chain, states, l, r, n).0.len() == states.len(),
        chain_block(c, chain, states, l, r, n).1.len() == l.len(),
        chain_block(c, chain, states, l, r, n).2.len() == r.len(),
        forall|i: int|
            n <= i < states.len() ==> #[trigger] chain_block(c, chain, states, l, r, n).0[i]
                == states[i],
    decreases n,
{
    if n > 0 {
        lemma_chain_fits(c, chain, states, l, r, n - 1);
        let (s, a, b) = chain_block(c, chain, states, l, r, n - 1);
        law_effects_keep_length(c, chain[n - 1], s[n - 1], a, b);
    }
}

/// A chain keeps the length of both channels, and its states fit on.
pub proof fn law_chains_keep_length<K: Fn(Op, Width, u64, u64) -> u64>(c: &Calc<K>, chain: Seq<AvEffect>, states: Seq<FxView>, l: Seq<F32>, r: Seq<F32>)
    requires
        chain_fits(chain, states),
    ensures
        ({
            let out = chain_block(c, chain, states, l, r, stated(chain.len(), states.len()));
            chain_fits(chain, out.0) && out.0.len() == states.len() && out.1.len() == l.len()
                && out.2.len() == r.len()
        }),
{
    lemma_chain_fits(c, chain, states, l, r, stated(chain.len(), states.len()));
}

proof fn lemma_chains_stream<K: Fn(Op, Width, u64, u64) -> u64>(c: &Calc<K>, chain: Seq<AvEffect>, states: Seq<FxView>, l1: Seq<F32>, r1: Seq<F32>, l2: Seq<F32>, r2: Seq<F32>, m: int, n: int)
    requires
        chain_fits(chain, states),
        0 <= n <= m <= stated(chain.len(), states.len()),
    ensures
        ({
            let one = chain_block(c, chain, states, l1, r1, m);
            let two = chain_block(c, chain, one.0, l2, r2, n);
            let first = chain_block(c, chain, states, l1, r1, n);
            let all = chain_block(c, chain, states, l1 + l2, r1 + r2, n);
            &&& all.1 == first.1 + two.1
            &&& all.2 == first.2 + two.2
            &&& forall|i: int| 0 <= i < n ==> #[trigger] all.0[i] == two.0[i]
            &&& forall|i: int| n <= i < states.len() ==> #[trigger] all.0[i] == states[i]
            &&& all.0.len() == states.len()
        }),
    decreases n,
{
    let one = chain_block(c, chain, states, l1, r1, m);
    if n > 0 {
        lemma_chains_stream(c, chain, states, l1, r1, l2, r2, m, n - 1);
        lemma_chain_fits(c, chain, states, l1, r1, n - 1);
        lemma_chain_fits(c, chain, states, l1, r1, m);
        lemma_chain_fits(c, chain, one.0, l2, r2, n - 1);
        lemma_chain_fits(c, chain, states, l1 + l2, r1 + r2, n - 1);
        let first = chain_block(c, chain, states, l1, r1, n - 1);
        let two = chain_block(c, chain, one.0, l2, r2, n - 1);
        let all = chain_block(c, chain, states, l1 + l2, r1 + r2, n - 1);
        let k = n - 1;
        assert(all.0[k] == states[k]);
        assert(first.0[k] == states[k]);
        lemma_settled(c, chain, states, l1, r1, n, m);
        assert(one.0[k] == effect_block(c, chain[k], states[k], first.1, first.2).0);
        assert(two.0[k] == one.0[k]);
        law_effects_stream(c, chain[k], states[k], first.1, first.2, two.1, two.2);
    }
}

proof fn lemma_settled<K: Fn(Op, Width, u64, u64) -> u64>(c: &Calc<K>, chain: Seq<AvEffect>, states: Seq<FxView>, l: Seq<F32>, r: Seq<F32>, n: int, m: int)
    requires
        chain_fits(chain, states),
        0 < n <= m <= stated(chain.len(), states.len()),
    ensures
        chain_block(c, chain, states, l, r, m).0[n - 1] == chain_block(
            c,
            chain,
            states,
            l,
            r,
            n,
        ).0[n - 1],
    decreases m,
{
    if n < m {
        lemma_settled(c, chain, states, l, r, n, m - 1);
        lemma_chain_fits(c, chain, states, l, r, m - 1);
    }
}

/// A chain streams: two blocks one after the other, with the states carried over,
/// give what the one block made of both gives. This is what makes realtime
/// performance playback equal to the offline render.
pub proof fn law_chains_stream<K: Fn(Op, Width, u64, u64) -> u64>(c: &Calc<K>, chain: Seq<AvEffect>, states: Seq<FxView>, l1: Seq<F32>, r1: Seq<F32>, l2: Seq<F32>, r2: Seq<F32>)
    requires
        chain_fits(chain, states),
    ensures
        ({
            let n = stated(chain.len(), states.len());
            let one = chain_block(c, chain, states, l1, r1, n);
            let two = chain_block(c, chain, one.0, l2, r2, n);
            chain_block(c, chain, states, l1 + l2, r1 + r2, n) == (
                two.0,
                one.1 + two.1,
                one.2 + two.2,
            )
        }),
{
    let n = stated(chain.len(), states.len());
    lemma_chains_stream(c, chain, states, l1, r1, l2, r2, n, n);
    lemma_chain_fits(c, chain, states, l1, r1, n);
    let one = chain_block(c, chain, states, l1, r1, n);
    lemma_chain_fits(c, chain, one.0, l2, r2, n);
    let two = chain_block(c, chain, one.0, l2, r2, n);
    let all = chain_block(c, chain, states, l1 + l2, r1 + r2, n);
    assert forall|i: int| 0 <= i < states.len() implies all.0[i] == two.0[i] by {
        if i >= n {
            assert(one.0[i] == states[i]);
            assert(two.0[i] == one.0[i]);
        }
    }
    assert(all.0 =~= two.0);
}

fn process_effect<K: Fn(Op, Width, u64, u64) -> u64>(c: &Calc<K>, fx: AvEffect, state: &mut AudioFxState, left: &mut Vec<F32>, right: &mut Vec<F32>)
    requires
        c.sound(),
        old(state).wf(),
        fits(fx.kind, old(state)@),
    ensures
        final(state).wf(),
        (final(state)@, final(left)@, final(right)@) == effect_block(
            c,
            fx,
            old(state)@,
            old(left)@,
            old(right)@,
        ),
{
    if fx.audio.le(single(BYPASS)) {
        return;
    }
    match state {
        AudioFxState::Crush { left: a, right: b } => {
            if let EffectKind::Crush { downsample, bits } = fx.kind {
                let factor: F32 = crush_factor(c, downsample, fx.audio);
                let levels: F32 = crush_levels(c, bits, fx.audio);
                a.process(c, left, factor, levels);
                b.process(c, right, factor, levels);
            }
        },
        AudioFxState::Delay { left: a, right: b } => {
            if let EffectKind::Delay { feedback, mix, .. } = fx.kind {
                a.process(c, left, feedback, mix.mul(c, fx.audio));
                b.process(c, right, feedback, mix.mul(c, fx.audio));
            }
        },
        AudioFxState::Reverb { left: a, right: b } => {
            if let EffectKind::Reverb { mix, .. } = fx.kind {
                a.process(c, left, mix.mul(c, fx.audio));
                b.process(c, right, mix.mul(c, fx.audio));
            }
        },
        AudioFxState::Compress { left: a, right: b } => {
            if let EffectKind::Compress { quality } = fx.kind {
                let q: F32 = lerp(c, single(0x3f80_0000), quality, fx.audio);
                if !single(TRANSPARENT).le(q) {
                    a.process(c, left, q);
                    b.process(c, right, q);
                }
            }
        },
    }
}

/// Process one stereo block through the chain, streaming. Call repeatedly
/// with consecutive blocks and the same `states`.
pub fn process_audio_chain<K: Fn(Op, Width, u64, u64) -> u64>(c: &Calc<K>, left: &mut Vec<F32>, right: &mut Vec<F32>, chain: &Vec<AvEffect>, states: &mut Vec<AudioFxState>)
    requires
        c.sound(),
        old(left)@.len() == old(right)@.len(),
        states_wf(old(states)@),
        chain_fits(chain@, states_view(old(states)@)),
    ensures
        final(states)@.len() == old(states)@.len(),
        states_wf(final(states)@),
        chain_fits(chain@, states_view(final(states)@)),
        final(left)@.len() == old(left)@.len(),
        final(right)@.len() == old(right)@.len(),
        (states_view(final(states)@), final(left)@, final(right)@) == chain_block(
            c,
            chain@,
            states_view(old(states)@),
            old(left)@,
            old(right)@,
            stated(chain@.len(), old(states)@.len()),
        ),
{
    let ghost first = states_view(states@);
    let ghost l = left@;
    let ghost r = right@;
    let n: usize = if chain.len() < states.len() { chain.len() } else { states.len() };
    let mut i: usize = 0;
    while i < n
        invariant
            c.sound(),
            i <= n,
            n == stated(chain@.len(), first.len()),
            states@.len() == first.len(),
            states_wf(states@),
            chain_fits(chain@, first),
            (states_view(states@), left@, right@) == chain_block(c, chain@, first, l, r, i as int),
        decreases n - i,
    {
        proof {
            lemma_chain_fits(c, chain@, first, l, r, i as int);
            assert(states_view(states@)[i as int] == states@[i as int]@);
        }
        let ghost before = states@;
        process_effect(c, chain[i], &mut states[i], left, right);
        assert(states_view(states@) =~= states_view(before).update(i as int, states@[i as int]@));
        i += 1;
    }
    proof {
        law_chains_keep_length(c, chain@, first, l, r);
    }
}

/// What a chain makes of a whole buffer's channels: where the chain has latency,
/// the input is followed by silence and the late samples are taken.
pub open spec fn rendered_chain<K: Fn(Op, Width, u64, u64) -> u64>(c: &Calc<K>, chain: Seq<AvEffect>, sample_rate: u32, l: Seq<F32>, r: Seq<F32>) -> (Seq<F32>, Seq<F32>) {
    let late = compressors(c, chain) * SPECTRAL_N;
    let n = l.len() as int;
    let states = fresh_states(c, chain, sample_rate);
    if late == 0 {
        let out = chain_block(c, chain, states, l, r, chain.len() as int);
        (out.1, out.2)
    } else {
        let pad = Seq::new((late + SPECTRAL_N) as nat, |i: int| single(0));
        let out = chain_block(c, chain, states, l + pad, r + pad, chain.len() as int);
        (out.1.subrange(late as int, late + n), out.2.subrange(late as int, late + n))
    }
}

fn padded(v: &Vec<F32>, extra: usize) -> (r: Vec<F32>)
    ensures
        r@ == v@ + Seq::new(extra as nat, |i: int| single(0)),
{
    let mut out: Vec<F32> = v.clone();
    let mut pad: Vec<F32> = silence(extra);
    out.append(&mut pad);
    out
}

fn late_part(v: &Vec<F32>, from: usize, n: usize) -> (r: Vec<F32>)
    requires
        from + n <= v@.len(),
    ensures
        r@ == v@.subrange(from as int, from + n),
{
    let mut out: Vec<F32> = Vec::new();
    assert(v.len() >= from + n);
    let mut i: usize = 0;
    while i < n
        invariant
            i <= n,
            from + n <= v.len(),
            out@ =~= v@.subrange(from as int, from + i),
        decreases n - i,
    {
        out.push(v[from + i]);
        i += 1;
    }
    out
}

/// Whether the latency of a chain, and one window more, can be counted.
pub open spec fn latency_fits<K: Fn(Op, Width, u64, u64) -> u64>(c: &Calc<K>, chain: Seq<AvEffect>) -> bool {
    (compressors(c, chain) + 1) * SPECTRAL_N <= usize::MAX
}

/// One-shot convenience: process a whole buffer, compensating for any
/// chain latency so offline renders stay time-aligned.
pub fn apply_audio_chain<K: Fn(Op, Width, u64, u64) -> u64>(c: &Calc<K>, buf: &mut StereoBuffer, chain: &Vec<AvEffect>)
    requires
        c.sound(),
        old(buf).wf(),
        latency_fits(c, chain@),
    ensures
        final(buf).wf(),
        final(buf).sample_rate == old(buf).sample_rate,
        final(buf).left@.len() == old(buf).left@.len(),
        (final(buf).left@, final(buf).right@) == rendered_chain(
            c,
            chain@,
            old(buf).sample_rate,
            old(buf).left@,
            old(buf).right@,
        ),
{
    let mut states: Vec<AudioFxState> = audio_chain_states(c, chain, buf.sample_rate);
    assert(states_view(states@).len() == chain@.len());
    let latency: usize = audio_chain_latency(c, chain);
    if latency == 0 {
        process_audio_chain(c, &mut buf.left, &mut buf.right, chain, &mut states);
        return;
    }
    let n: usize = buf.left.len();
    let mut l: Vec<F32> = padded(&buf.left, latency + SPECTRAL_N);
    let mut r: Vec<F32> = padded(&buf.right, latency + SPECTRAL_N);
    process_audio_chain(c, &mut l, &mut r, chain, &mut states);
    buf.left = late_part(&l, latency, n);
    buf.right = late_part(&r, latency, n);
}

/// An effect whose audio dial is at zero leaves the sound as it is.
pub proof fn law_audio_dial_bypasses<K: Fn(Op, Width, u64, u64) -> u64>(c: &Calc<K>, fx: AvEffect, s: FxView, l: Seq<F32>, r: Seq<F32>)
    requires
        fx.audio.le(single(BYPASS)),
    ensures
        effect_block(c, fx, s, l, r) == (s, l, r),
{
}

/// Rendering keeps a buffer's length, and a chain without effects keeps its sound.
pub proof fn law_rendering_keeps_length<K: Fn(Op, Width, u64, u64) -> u64>(c: &Calc<K>, chain: Seq<AvEffect>, sample_rate: u32, l: Seq<F32>, r: Seq<F32>)
    requires
        l.len() == r.len(),
    ensures
        rendered_chain(c, chain, sample_rate, l, r).0.len() == l.len(),
        rendered_chain(c, chain, sample_rate, l, r).1.len() == r.len(),
        chain.len() == 0 ==> rendered_chain(c, chain, sample_rate, l, r) == (l, r),
{
    let late = compressors(c, chain) * SPECTRAL_N;
    let pad = Seq::new((late + SPECTRAL_N) as nat, |i: int| single(0));
    let states = fresh_states(c, chain, sample_rate);
    assert(chain_fits(chain, states));
    law_chains_keep_length(c, chain, states, l, r);
    law_chains_keep_length(c, chain, states, l + pad, r + pad);
}

} // verus!
