//! Step sequencer (Koala / Nanoloop style): patterns of rows, each row a
//! sampler pad (source + grain preset + key), each step a beat-quantized
//! trigger. Patterns live in the project and are placed on the timeline as
//! pattern clips, looping to fill the clip. A triggered step is ONE grain
//! event, so every hit gets the full AV correspondence.
use crate::auto::AutomationLane;
use crate::calc::{Calc, Op, Width};
use crate::dsp::{drawn_centred, drawn_unit, seeded, stirred, stirred_by, Rng};
use crate::grain::{force_settings, settings_in_force, GrainEvent, GrainSettings};
use crate::music::{effective, effective_ratio, Key};
use crate::num::{double, single, F32, F64};
use crate::timeline::{Source, SourceId};
use vstd::prelude::*;

verus! {

/// One step of a row: on/off, semitone offset, gain multiplier.
#[derive(Clone, Copy, Debug, PartialEq)]
pub struct Step {
    pub on: bool,
    pub pitch: F32,
    pub gain: F32,
}

impl Step {
    /// A silent step.
    pub open spec fn off() -> Step {
        Step { on: false, pitch: single(0), gain: single(0x3f80_0000) }
    }
}

impl Default for Step {
    fn default() -> (r: Step)
        ensures
            r == Step::off(),
    {
        Step { on: false, pitch: single(0), gain: single(0x3f80_0000) }
    }
}

/// How a row makes sound.
#[derive(Clone, Copy, Debug, PartialEq, Eq, Structural)]
pub enum RowMode {
    /// Beat-quantized step triggers. The row cycles its OWN step count at
    /// the pattern's step rate — a 12-step row against a 16-step pattern
    /// drifts in and out of phase (polymeter).
    Steps,
    /// Not sequenced: the row loops a start..stop segment of its source,
    /// repeating seamlessly for the whole clip.
    Loop,
}

/// A sampler pad row: a source, how its hits sound/look, and its steps.
#[derive(Debug)]
pub struct SeqRow {
    pub source: SourceId,
    /// Hit preset: duration, position, pitch, gain, pan(+spread), envelope,
    /// spray, pitch_jitter and seed all apply per hit.
    pub grains: GrainSettings,
    pub key: Option<Key>,
    pub steps: Vec<Step>,
    pub mode: RowMode,
    /// Loop-mode segment, normalized 0..1 of the source.
    pub loop_start: F32,
    pub loop_end: F32,
}

impl Clone for SeqRow {
    fn clone(&self) -> (r: SeqRow)
        ensures
            r.same(*self),
    {
        SeqRow {
            source: self.source,
            grains: self.grains,
            key: self.key,
            steps: self.steps.clone(),
            mode: self.mode,
            loop_start: self.loop_start,
            loop_end: self.loop_end,
        }
    }
}

/// The grain preset of a new row.
pub open spec fn row_preset() -> GrainSettings {
    GrainSettings {
        duration: single(0x3e80_0000),
        spray: single(0),
        pan_spread: single(0x3e4c_cccd),
        envelope: single(0x3e80_0000),
        ..GrainSettings::standard()
    }
}

/// Steps resized to `n`: cut off, or filled up with silent ones.
pub open spec fn resized(steps: Seq<Step>, n: int) -> Seq<Step> {
    Seq::new(
        n as nat,
        |i: int|
            if i < steps.len() {
                steps[i]
            } else {
                Step::off()
            },
    )
}

fn resize_steps(steps: &mut Vec<Step>, n: usize)
    ensures
        final(steps)@ == resized(old(steps)@, n as int),
{
    let ghost before = steps@;
    if n < steps.len() {
        steps.truncate(n);
    }
    while steps.len() < n
        invariant
            steps@.len() <= n,
            steps@.len() <= before.len() || steps@.len() > before.len(),
            steps@ =~= resized(before, steps@.len() as int),
            steps@.len() >= before.len() || steps@.len() == n,
        decreases n - steps.len(),
    {
        steps.push(Step::default());
    }
    assert(steps@ =~= resized(before, n as int));
}

impl SeqRow {
    /// Whether two rows hold the same.
    pub open spec fn same(self, o: SeqRow) -> bool {
        &&& self.source == o.source
        &&& self.grains == o.grains
        &&& self.key == o.key
        &&& self.steps@ == o.steps@
        &&& self.mode == o.mode
        &&& self.loop_start == o.loop_start
        &&& self.loop_end == o.loop_end
    }

    /// The key, where there is one, is one.
    pub open spec fn wf(self) -> bool {
        self.key is Some ==> self.key->0.wf()
    }

    pub fn new(source: SourceId, n_steps: usize) -> (r: SeqRow)
        ensures
            r.wf(),
            r.source == source,
            r.grains == row_preset(),
            r.key is None,
            r.steps@ == Seq::new(n_steps as nat, |i: int| Step::off()),
            r.mode == RowMode::Steps,
            r.loop_start == single(0),
            r.loop_end == single(0x3f80_0000),
    {
        let mut steps: Vec<Step> = Vec::new();
        resize_steps(&mut steps, n_steps);
        assert(steps@ =~= Seq::new(n_steps as nat, |i: int| Step::off()));
        let mut grains: GrainSettings = GrainSettings::default();
        grains.duration = single(0x3e80_0000);
        grains.spray = single(0);
        grains.pan_spread = single(0x3e4c_cccd);
        grains.envelope = single(0x3e80_0000);
        SeqRow {
            source,
            grains,
            key: None,
            steps,
            mode: RowMode::Steps,
            loop_start: single(0),
            loop_end: single(0x3f80_0000),
        }
    }

    /// Set this row's own step count (polymeter against the pattern grid).
    pub fn set_steps(&mut self, n: usize)
        ensures
            final(self).steps@ == resized(
                old(self).steps@,
                if n < 1 {
                    1
                } else if n > 128 {
                    128
                } else {
                    n as int
                },
            ),
            final(self).source == old(self).source,
            final(self).grains == old(self).grains,
            final(self).key == old(self).key,
            final(self).mode == old(self).mode,
            final(self).loop_start == old(self).loop_start,
            final(self).loop_end == old(self).loop_end,
    {
        let m: usize = if n < 1 {
            1
        } else if n > 128 {
            128
        } else {
            n
        };
        resize_steps(&mut self.steps, m);
    }
}

/// A step pattern: a grid of rows x steps covering `length_beats`.
#[derive(Debug)]
pub struct StepPattern {
    pub name: String,
    pub steps_per_beat: u32,
    pub length_beats: F64,
    pub rows: Vec<SeqRow>,
}

impl Clone for StepPattern {
    fn clone(&self) -> (r: StepPattern)
        ensures
            r.same(*self),
    {
        StepPattern {
            name: self.name.clone(),
            steps_per_beat: self.steps_per_beat,
            length_beats: self.length_beats,
            rows: self.rows.clone(),
        }
    }
}

/// How many steps a grid has: at least one.
#[verifier::allow_in_spec]
pub fn grid_steps<K: Fn(Op, Width, u64, u64) -> u64>(c: &Calc<K>, length_beats: F64, steps_per_beat: u32) -> usize
    requires
        c.sound(),
    returns
        (length_beats.mul(c, F64::of_count(c, steps_per_beat as u64)).round(c).max(double(0x3ff0_0000_0000_0000)).to_size(c)),
{
    length_beats.mul(c, F64::of_count(c, steps_per_beat as u64)).round(c).max(double(0x3ff0_0000_0000_0000)).to_size(c)
}

impl StepPattern {
    /// Whether two patterns hold the same.
    pub open spec fn same(self, o: StepPattern) -> bool {
        &&& self.name@ == o.name@
        &&& self.steps_per_beat == o.steps_per_beat
        &&& self.length_beats == o.length_beats
        &&& self.rows@.len() == o.rows@.len()
        &&& forall|i: int| 0 <= i < o.rows@.len() ==> (#[trigger] self.rows@[i]).same(o.rows@[i])
    }

    /// Every row's key is one.
    pub open spec fn wf(self) -> bool {
        forall|i: int| 0 <= i < self.rows@.len() ==> (#[trigger] self.rows@[i]).wf()
    }

    pub fn new(name: &str) -> (r: StepPattern)
        ensures
            r.wf(),
            r.name@ == name@,
            r.steps_per_beat == 4,
            r.length_beats == double(0x4010_0000_0000_0000),
            r.rows@.len() == 0,
    {
        StepPattern {
            name: name.to_owned(),
            steps_per_beat: 4,
            length_beats: double(0x4010_0000_0000_0000),
            rows: Vec::new(),
        }
    }

    pub fn n_steps<K: Fn(Op, Width, u64, u64) -> u64>(&self, c: &Calc<K>) -> (r: usize)
        requires
            c.sound(),
        ensures
            r == grid_steps(c, self.length_beats, self.steps_per_beat),
    {
        grid_steps(c, self.length_beats, self.steps_per_beat)
    }

    pub fn add_row<K: Fn(Op, Width, u64, u64) -> u64>(&mut self, c: &Calc<K>, source: SourceId) -> (r: usize)
        requires
            c.sound(),
        ensures
            r == old(self).rows@.len(),
            final(self).name == old(self).name,
            final(self).steps_per_beat == old(self).steps_per_beat,
            final(self).length_beats == old(self).length_beats,
            final(self).rows@.len() == r + 1,
            forall|i: int| 0 <= i < r ==> final(self).rows@[i] == old(self).rows@[i],
            ({
                let row = final(self).rows@[r as int];
                &&& row.wf()
                &&& row.source == source
                &&& row.grains == row_preset()
                &&& row.key is None
                &&& row.steps@ == Seq::new(
                    grid_steps(c, old(self).length_beats, old(self).steps_per_beat) as nat,
                    |i: int| Step::off(),
                )
                &&& row.mode == RowMode::Steps
                &&& row.loop_start == single(0)
                &&& row.loop_end == single(0x3f80_0000)
            }),
    {
        let n: usize = self.n_steps(c);
        self.rows.push(SeqRow::new(source, n));
        self.rows.len() - 1
    }

    /// Change the grid. Rows still matching the old default step count
    /// follow along; rows with a custom (polymeter) count keep theirs.
    pub fn set_grid<K: Fn(Op, Width, u64, u64) -> u64>(&mut self, c: &Calc<K>, length_beats: F64, steps_per_beat: u32)
        requires
            c.sound(),
        ensures
            final(self).name == old(self).name,
            final(self).length_beats == length_beats.limit(double(0x3fd0_0000_0000_0000), double(0x4050_0000_0000_0000)),
            final(self).steps_per_beat == if steps_per_beat < 1 {
                1
            } else if steps_per_beat > 16 {
                16
            } else {
                steps_per_beat
            },
            final(self).rows@.len() == old(self).rows@.len(),
            forall|i: int|
                0 <= i < old(self).rows@.len() ==> regridded(
                    old(self).rows@[i],
                    #[trigger] final(self).rows@[i],
                    grid_steps(c, old(self).length_beats, old(self).steps_per_beat) as int,
                    grid_steps(c, final(self).length_beats, final(self).steps_per_beat) as int,
                ),
    {
        let old_n: usize = self.n_steps(c);
        self.length_beats = length_beats.limit(double(0x3fd0_0000_0000_0000), double(0x4050_0000_0000_0000));
        self.steps_per_beat = if steps_per_beat < 1 {
            1
        } else if steps_per_beat > 16 {
            16
        } else {
            steps_per_beat
        };
        let n: usize = self.n_steps(c);
        let ghost before = self.rows@;
        let mut i: usize = 0;
        while i < self.rows.len()
            invariant
                i <= self.rows@.len(),
                self.rows@.len() == before.len(),
                self.name == old(self).name,
                self.length_beats == length_beats.limit(double(0x3fd0_0000_0000_0000), double(0x4050_0000_0000_0000)),
                self.steps_per_beat == if steps_per_beat < 1 {
                    1
                } else if steps_per_beat > 16 {
                    16
                } else {
                    steps_per_beat
                },
                forall|k: int|
                    0 <= k < i ==> regridded(
                        before[k],
                        #[trigger] self.rows@[k],
                        old_n as int,
                        n as int,
                    ),
                forall|k: int| i <= k < before.len() ==> self.rows@[k] == before[k],
            decreases self.rows.len() - i,
        {
            if self.rows[i].steps.len() == old_n {
                resize_steps(&mut self.rows[i].steps, n);
            }
            i += 1;
        }
    }
}

/// Whether `after` is a row as it is when the grid's steps change from `old_n` to
/// `n`.
pub open spec fn regridded(before: SeqRow, after: SeqRow, old_n: int, n: int) -> bool {
    &&& after.source == before.source
    &&& after.grains == before.grains
    &&& after.key == before.key
    &&& after.mode == before.mode
    &&& after.loop_start == before.loop_start
    &&& after.loop_end == before.loop_end
    &&& after.steps@ == if before.steps@.len() == old_n {
        resized(before.steps@, n)
    } else {
        before.steps@
    }
}

/// The steps that a resized row has in common with the old one are kept.
pub proof fn law_grid_changes_keep_steps(steps: Seq<Step>, n: int, i: int)
    requires
        0 <= i < steps.len(),
        i < n,
    ensures
        resized(steps, n)[i] == steps[i],
        resized(steps, n).len() == n,
{
}

// ------------------------------------------------------------------- events

/// What a row plays in: the clip on the timeline, and what the row reads.
#[derive(Clone, Copy, Debug)]
pub struct RowSpan {
    /// The clip's start and length, seconds.
    pub start: F64,
    pub len: F64,
    pub secs_per_beat: F64,
    /// The length of a step, seconds.
    pub step_secs: F64,
    pub source_len: F64,
    pub base_hz: F32,
    pub key: Option<Key>,
    /// Where the row's random numbers start.
    pub seed: u64,
    /// The id of the row's first event.
    pub first_id: u64,
}

/// The clip time of a slot, seconds.
#[verifier::allow_in_spec]
pub fn slot_start<K: Fn(Op, Width, u64, u64) -> u64>(c: &Calc<K>, step_secs: F64, slot: u64) -> F64
    requires
        c.sound(),
    returns
        (F64::of_count(c, slot).mul(c, step_secs)),
{
    F64::of_count(c, slot).mul(c, step_secs)
}

/// A hit's read position.
#[verifier::allow_in_spec]
pub fn hit_pos<K: Fn(Op, Width, u64, u64) -> u64>(c: &Calc<K>, g: GrainSettings, source_len: F64, j: F32) -> F64
    requires
        c.sound(),
    returns
        (g.position.to_f64(c).mul(c, source_len).add(c, g.spray.to_f64(c).mul(c, j.to_f64(c))).rem_euclid(
            c,
            source_len.max(double(0x3eb0_c6f7_a0b5_ed8d)),
        )),
{
    g.position.to_f64(c).mul(c, source_len).add(c, g.spray.to_f64(c).mul(c, j.to_f64(c))).rem_euclid(
        c,
        source_len.max(double(0x3eb0_c6f7_a0b5_ed8d)),
    )
}

/// A hit's pitch, semitones.
#[verifier::allow_in_spec]
pub fn hit_pitch<K: Fn(Op, Width, u64, u64) -> u64>(c: &Calc<K>, g: GrainSettings, step_pitch: F32, j: F32) -> F32
    requires
        c.sound(),
    returns
        (g.pitch.add(c, step_pitch).add(c, g.pitch_jitter.mul(c, j))),
{
    g.pitch.add(c, step_pitch).add(c, g.pitch_jitter.mul(c, j))
}

/// A hit's pan.
#[verifier::allow_in_spec]
pub fn hit_pan<K: Fn(Op, Width, u64, u64) -> u64>(c: &Calc<K>, g: GrainSettings, j: F32) -> F32
    requires
        c.sound(),
    returns
        (g.pan.add(c, g.pan_spread.mul(c, j)).limit(single(0xbf80_0000), single(0x3f80_0000))),
{
    g.pan.add(c, g.pan_spread.mul(c, j)).limit(single(0xbf80_0000), single(0x3f80_0000))
}

/// The generator's state before a slot: every slot, on or off, takes four draws.
pub open spec fn slot_state(seed: u64, slot: u64) -> u64 {
    stirred_by(seeded(seed), (4 * slot) as nat)
}

/// The hit of a step in a slot. It depends on the step, the slot and the row's
/// settings, and not on the other steps.
#[verifier::opaque]
pub open spec fn hit<K: Fn(Op, Width, u64, u64) -> u64>(c: &Calc<K>, span: RowSpan, grains: GrainSettings, lanes: Seq<AutomationLane>, step: Step, slot: u64, id: u64) -> GrainEvent {
    let t = slot_start(c, span.step_secs, slot);
    let x = slot_state(span.seed, slot);
    let g = settings_in_force(c, grains, lanes, span.secs_per_beat, t);
    GrainEvent {
        onset: span.start.add(c, t),
        source_pos: hit_pos(c, g, span.source_len, drawn_centred(x)),
        duration: g.duration.limit(single(0x3c23_d70a), single(0x40a0_0000)),
        pitch_ratio: effective(
            c,
            hit_pitch(c, g, step.pitch, drawn_centred(stirred_by(x, 1))),
            span.key,
            span.base_hz,
            g.quantize_amount,
            g.detune_cents,
        ),
        gain: g.gain.mul(c, step.gain),
        pan: hit_pan(c, g, drawn_centred(stirred_by(x, 2))),
        envelope: g.envelope,
        env_skew: g.env_skew,
        reverse: drawn_unit(stirred_by(x, 3)).lt(g.reverse_prob),
        id,
    }
}

/// The step that a slot plays: the row cycles its own steps.
pub open spec fn step_at(steps: Seq<Step>, slot: u64) -> Step {
    steps[slot as int % steps.len() as int]
}

/// Whether a clip ends before a slot starts.
pub open spec fn past_end<K: Fn(Op, Width, u64, u64) -> u64>(c: &Calc<K>, span: RowSpan, slot: u64) -> bool {
    span.len.le(slot_start(c, span.step_secs, slot))
}

/// The hits of a row from a slot on, until the clip ends.
pub open spec fn hits<K: Fn(Op, Width, u64, u64) -> u64>(c: &Calc<K>, span: RowSpan, grains: GrainSettings, lanes: Seq<AutomationLane>, steps: Seq<Step>, slot: u64, id: u64) -> Seq<GrainEvent>
    decreases u64::MAX - slot,
{
    if slot == u64::MAX || past_end(c, span, slot) {
        seq![]
    } else if step_at(steps, slot).on {
        seq![hit(c, span, grains, lanes, step_at(steps, slot), slot, id)] + hits(
            c,
            span,
            grains,
            lanes,
            steps,
            (slot + 1) as u64,
            id.wrapping_add(1),
        )
    } else {
        hits(c, span, grains, lanes, steps, (slot + 1) as u64, id)
    }
}

/// Where a loop row's segment starts, 0..1.
#[verifier::allow_in_spec]
pub fn segment_from<K: Fn(Op, Width, u64, u64) -> u64>(c: &Calc<K>, loop_start: F32) -> F64
    requires
        c.sound(),
    returns
        (loop_start.limit(single(0), single(0x3f80_0000)).to_f64(c)),
{
    loop_start.limit(single(0), single(0x3f80_0000)).to_f64(c)
}

/// How long a loop row's segment is, seconds of the source.
#[verifier::allow_in_spec]
pub fn segment_secs<K: Fn(Op, Width, u64, u64) -> u64>(c: &Calc<K>, loop_start: F32, loop_end: F32, source_len: F64) -> F64
    requires
        c.sound(),
    returns
        (loop_end.limit(single(0), single(0x3f80_0000)).to_f64(c).sub(c, loop_start.limit(single(0), single(0x3f80_0000)).to_f64(c)).mul(
            c,
            source_len,
        ).max(double(0x3f94_7ae1_47ae_147b))),
{
    loop_end.limit(single(0), single(0x3f80_0000)).to_f64(c).sub(c, loop_start.limit(single(0), single(0x3f80_0000)).to_f64(c)).mul(
        c,
        source_len,
    ).max(double(0x3f94_7ae1_47ae_147b))
}

/// How long a repetition of a segment plays at a ratio, seconds.
#[verifier::allow_in_spec]
pub fn segment_out<K: Fn(Op, Width, u64, u64) -> u64>(c: &Calc<K>, seg: F64, ratio: F32) -> F64
    requires
        c.sound(),
    returns
        (seg.div(c, ratio.max(single(0x3c23_d70a)).to_f64(c)).limit(double(0x3f94_7ae1_47ae_147b), double(0x404e_0000_0000_0000))),
{
    seg.div(c, ratio.max(single(0x3c23_d70a)).to_f64(c)).limit(double(0x3f94_7ae1_47ae_147b), double(0x404e_0000_0000_0000))
}

/// Where a segment is read from, seconds.
#[verifier::allow_in_spec]
pub fn segment_pos<K: Fn(Op, Width, u64, u64) -> u64>(c: &Calc<K>, from: F64, source_len: F64) -> F64
    requires
        c.sound(),
    returns
        (from.mul(c, source_len).min(source_len)),
{
    from.mul(c, source_len).min(source_len)
}

/// The ratio that a repetition at clip time `t` plays at.
pub open spec fn loop_ratio<K: Fn(Op, Width, u64, u64) -> u64>(c: &Calc<K>, span: RowSpan, g: GrainSettings) -> F32 {
    effective(c, g.pitch, span.key, span.base_hz, g.quantize_amount, g.detune_cents)
}

/// A repetition of a loop row's segment at clip time `t`, drawn from state `x`.
pub open spec fn repetition<K: Fn(Op, Width, u64, u64) -> u64>(c: &Calc<K>, span: RowSpan, g: GrainSettings, from: F64, seg: F64, t: F64, x: u64, id: u64) -> GrainEvent {
    let ratio = loop_ratio(c, span, g);
    GrainEvent {
        onset: span.start.add(c, t),
        source_pos: segment_pos(c, from, span.source_len),
        duration: segment_out(c, seg, ratio).to_f32(c),
        pitch_ratio: ratio,
        gain: g.gain,
        pan: hit_pan(c, g, drawn_centred(x)),
        envelope: g.envelope,
        env_skew: g.env_skew,
        reverse: single(0x3f00_0000).le(g.reverse_prob),
        id,
    }
}

/// The repetitions of a loop row from clip time `t` on, back to back until the clip
/// ends. `k` counts them.
pub open spec fn repetitions<K: Fn(Op, Width, u64, u64) -> u64>(c: &Calc<K>, span: RowSpan, grains: GrainSettings, lanes: Seq<AutomationLane>, from: F64, seg: F64, t: F64, k: u64, id: u64) -> Seq<GrainEvent>
    decreases u64::MAX - k,
{
    if k == u64::MAX || !t.lt(span.len) {
        seq![]
    } else {
        let g = settings_in_force(c, grains, lanes, span.secs_per_beat, t);
        seq![repetition(c, span, g, from, seg, t, stirred_by(seeded(span.seed), k as nat), id)]
            + repetitions(
            c,
            span,
            grains,
            lanes,
            from,
            seg,
            t.add(c, segment_out(c, seg, loop_ratio(c, span, g))),
            (k + 1) as u64,
            id.wrapping_add(1),
        )
    }
}

/// What a row plays.
pub open spec fn row_events<K: Fn(Op, Width, u64, u64) -> u64>(c: &Calc<K>, span: RowSpan, row: SeqRow, lanes: Seq<AutomationLane>) -> Seq<GrainEvent> {
    match row.mode {
        RowMode::Steps => hits(c, span, row.grains, lanes, row.steps@, 0, span.first_id),
        RowMode::Loop => repetitions(
            c,
            span,
            row.grains,
            lanes,
            segment_from(c, row.loop_start),
            segment_secs(c, row.loop_start, row.loop_end, span.source_len),
            double(0),
            0,
            span.first_id,
        ),
    }
}

proof fn lemma_four_draws(x: u64, n: nat)
    ensures
        stirred_by(x, n + 4) == stirred(stirred(stirred(stirred(stirred_by(x, n))))),
        stirred_by(x, 1) == stirred(x),
        stirred_by(x, 2) == stirred(stirred(x)),
        stirred_by(x, 3) == stirred(stirred(stirred(x))),
        stirred_by(x, 4) == stirred(stirred(stirred(stirred(x)))),
        stirred_by(x, 0) == x,
{
    reveal_with_fuel(stirred_by, 6);
}

fn play_step<K: Fn(Op, Width, u64, u64) -> u64>(c: &Calc<K>, span: &RowSpan, grains: &GrainSettings, lanes: &Vec<AutomationLane>, step: Step, slot: u64, draws: (F32, F32, F32, F32), id: u64) -> (r: GrainEvent)
    requires
        c.sound(),
        span.key is Some ==> span.key->0.wf(),
        ({
            let x = slot_state(span.seed, slot);
            draws == (
                drawn_centred(x),
                drawn_centred(stirred_by(x, 1)),
                drawn_centred(stirred_by(x, 2)),
                drawn_unit(stirred_by(x, 3)),
            )
        }),
    ensures
        r == hit(c, *span, *grains, lanes@, step, slot, id),
{
    proof {
        reveal(hit);
    }
    let t: F64 = slot_start(c, span.step_secs, slot);
    let g: GrainSettings = force_settings(c, grains, lanes, span.secs_per_beat, t);
    let (spray_j, pitch_j, pan_j, rev_j): (F32, F32, F32, F32) = draws;
    let ratio: F32 = effective_ratio(
        c,
        hit_pitch(c, g, step.pitch, pitch_j),
        span.key,
        span.base_hz,
        g.quantize_amount,
        g.detune_cents,
    );
    GrainEvent {
        onset: span.start.add(c, t),
        source_pos: hit_pos(c, g, span.source_len, spray_j),
        duration: g.duration.limit(single(0x3c23_d70a), single(0x40a0_0000)),
        pitch_ratio: ratio,
        gain: g.gain.mul(c, step.gain),
        pan: hit_pan(c, g, pan_j),
        envelope: g.envelope,
        env_skew: g.env_skew,
        reverse: rev_j.lt(g.reverse_prob),
        id,
    }
}

fn slot_draws(rng: &mut Rng) -> (r: (F32, F32, F32, F32))
    ensures
        final(rng)@ == stirred_by(old(rng)@, 4),
        r == (
            drawn_centred(old(rng)@),
            drawn_centred(stirred_by(old(rng)@, 1)),
            drawn_centred(stirred_by(old(rng)@, 2)),
            drawn_unit(stirred_by(old(rng)@, 3)),
        ),
{
    proof {
        lemma_four_draws(rng@, 0);
    }
    let spray_j: F32 = rng.bipolar();
    let pitch_j: F32 = rng.bipolar();
    let pan_j: F32 = rng.bipolar();
    let rev_j: F32 = rng.next_f32();
    (spray_j, pitch_j, pan_j, rev_j)
}

proof fn lemma_next_slot(seed: u64, slot: u64)
    requires
        slot < u64::MAX,
    ensures
        slot_state(seed, (slot + 1) as u64) == stirred_by(slot_state(seed, slot), 4),
        slot_state(seed, 0) == seeded(seed),
{
    lemma_four_draws(seeded(seed), (4 * slot) as nat);
    lemma_four_draws(slot_state(seed, slot), 0);
    lemma_four_draws(seeded(seed), 0);
    assert((4 * slot) as nat + 4 == (4 * (slot + 1) as u64) as nat);
}

fn play_steps<K: Fn(Op, Width, u64, u64) -> u64>(c: &Calc<K>, span: &RowSpan, row: &SeqRow, lanes: &Vec<AutomationLane>) -> (r: Vec<GrainEvent>)
    requires
        c.sound(),
        row.steps@.len() > 0,
        span.key is Some ==> span.key->0.wf(),
    ensures
        r@ == hits(c, *span, row.grains, lanes@, row.steps@, 0, span.first_id),
{
    let ghost want = hits(c, *span, row.grains, lanes@, row.steps@, 0, span.first_id);
    let mut rng: Rng = Rng::new(span.seed);
    let mut events: Vec<GrainEvent> = Vec::new();
    let mut id: u64 = span.first_id;
    let mut slot: u64 = 0;
    let n: u64 = row.steps.len() as u64;
    assert(Seq::<GrainEvent>::empty() + want =~= want);
    proof {
        lemma_next_slot(span.seed, 0);
    }
    while slot < u64::MAX && !span.len.le(slot_start(c, span.step_secs, slot))
        invariant
            c.sound(),
            n == row.steps.len(),
            n > 0,
            span.key is Some ==> span.key->0.wf(),
            rng@ == slot_state(span.seed, slot),
            events@ + hits(c, *span, row.grains, lanes@, row.steps@, slot, id) =~= want,
        decreases u64::MAX - slot,
    {
        let step: Step = row.steps[(slot % n) as usize];
        assert(step == step_at(row.steps@, slot));
        assert(!past_end(c, *span, slot));
        proof {
            lemma_next_slot(span.seed, slot);
        }
        let draws: (F32, F32, F32, F32) = slot_draws(&mut rng);
        if step.on {
            let ev: GrainEvent = play_step(c, span, &row.grains, lanes, step, slot, draws, id);
            let ghost before = events@;
            proof {
                let rest = hits(
                    c,
                    *span,
                    row.grains,
                    lanes@,
                    row.steps@,
                    (slot + 1) as u64,
                    id.wrapping_add(1),
                );
                assert(before + (seq![ev] + rest) =~= before.push(ev) + rest);
            }
            events.push(ev);
            id = id.wrapping_add(1);
        }
        slot += 1;
    }
    assert(slot == u64::MAX || past_end(c, *span, slot));
    assert(events@ + Seq::<GrainEvent>::empty() =~= events@);
    events
}

fn play_loop<K: Fn(Op, Width, u64, u64) -> u64>(c: &Calc<K>, span: &RowSpan, row: &SeqRow, lanes: &Vec<AutomationLane>) -> (r: Vec<GrainEvent>)
    requires
        c.sound(),
        span.key is Some ==> span.key->0.wf(),
    ensures
        r@ == repetitions(
            c,
            *span,
            row.grains,
            lanes@,
            segment_from(c, row.loop_start),
            segment_secs(c, row.loop_start, row.loop_end, span.source_len),
            double(0),
            0,
            span.first_id,
        ),
{
    let from: F64 = segment_from(c, row.loop_start);
    let seg: F64 = segment_secs(c, row.loop_start, row.loop_end, span.source_len);
    let ghost want = repetitions(
        c,
        *span,
        row.grains,
        lanes@,
        from,
        seg,
        double(0),
        0,
        span.first_id,
    );
    let mut rng: Rng = Rng::new(span.seed);
    let mut events: Vec<GrainEvent> = Vec::new();
    let mut id: u64 = span.first_id;
    let mut k: u64 = 0;
    let mut t: F64 = double(0);
    assert(Seq::<GrainEvent>::empty() + want =~= want);
    proof {
        lemma_four_draws(seeded(span.seed), 0);
    }
    while k < u64::MAX && t.lt(span.len)
        invariant
            c.sound(),
            span.key is Some ==> span.key->0.wf(),
            rng@ == stirred_by(seeded(span.seed), k as nat),
            events@ + repetitions(c, *span, row.grains, lanes@, from, seg, t, k, id) =~= want,
        decreases u64::MAX - k,
    {
        let ghost x = rng@;
        let pan_j: F32 = rng.bipolar();
        let g: GrainSettings = force_settings(c, &row.grains, lanes, span.secs_per_beat, t);
        let ratio: F32 = effective_ratio(
            c,
            g.pitch,
            span.key,
            span.base_hz,
            g.quantize_amount,
            g.detune_cents,
        );
        let out: F64 = segment_out(c, seg, ratio);
        let ev: GrainEvent = GrainEvent {
            onset: span.start.add(c, t),
            source_pos: segment_pos(c, from, span.source_len),
            duration: out.to_f32(c),
            pitch_ratio: ratio,
            gain: g.gain,
            pan: hit_pan(c, g, pan_j),
            envelope: g.envelope,
            env_skew: g.env_skew,
            reverse: single(0x3f00_0000).le(g.reverse_prob),
            id,
        };
        let ghost before = events@;
        proof {
            assert(ev == repetition(c, *span, g, from, seg, t, x, id));
            let rest = repetitions(
                c,
                *span,
                row.grains,
                lanes@,
                from,
                seg,
                t.add(c, out),
                (k + 1) as u64,
                id.wrapping_add(1),
            );
            assert(before + (seq![ev] + rest) =~= before.push(ev) + rest);
        }
        events.push(ev);
        id = id.wrapping_add(1);
        t = t.add(c, out);
        k += 1;
    }
    assert(events@ + Seq::<GrainEvent>::empty() =~= events@);
    events
}

/// What a pattern clip plays in.
#[derive(Clone, Copy, Debug)]
pub struct PatternSpan {
    /// The clip's start and length, seconds.
    pub start: F64,
    pub len: F64,
    pub secs_per_beat: F64,
    /// The clip's key, taking precedence over row keys.
    pub key: Option<Key>,
}

/// What row `i` of a pattern plays in.
pub open spec fn row_span<K: Fn(Op, Width, u64, u64) -> u64>(c: &Calc<K>, span: PatternSpan, steps_per_beat: u32, row: SeqRow, source: Source, i: int) -> RowSpan {
    RowSpan {
        start: span.start,
        len: span.len,
        secs_per_beat: span.secs_per_beat,
        step_secs: span.secs_per_beat.div(c, F64::of_count(c, steps_per_beat as u64)),
        source_len: source.lasts(c),
        base_hz: source.tuned_hz(),
        key: if span.key is Some {
            span.key
        } else {
            row.key
        },
        seed: row.grains.seed ^ ((i + 1) as u64).wrapping_mul(0x9E37),
        first_id: (i as u64) << 32u64,
    }
}

/// What row `i` of a pattern plays; nothing where its source is missing or empty or
/// it has no steps.
pub open spec fn pattern_row<K: Fn(Op, Width, u64, u64) -> u64>(c: &Calc<K>, pattern: StepPattern, sources: Seq<Source>, span: PatternSpan, lanes: Seq<AutomationLane>, i: int) -> Seq<GrainEvent> {
    let row = pattern.rows@[i];
    if row.source >= sources.len() {
        seq![]
    } else {
        let source = sources[row.source as int];
        if source.lasts(c).le(double(0)) || row.steps@.len() == 0 {
            seq![]
        } else {
            row_events(c, row_span(c, span, pattern.steps_per_beat, row, source, i), row, lanes)
        }
    }
}

/// What the first `n` rows of a pattern play, by source; silent rows are left out.
pub open spec fn pattern_rows<K: Fn(Op, Width, u64, u64) -> u64>(c: &Calc<K>, pattern: StepPattern, sources: Seq<Source>, span: PatternSpan, lanes: Seq<AutomationLane>, n: int) -> Seq<(usize, Seq<GrainEvent>)>
    decreases n,
{
    if n <= 0 {
        seq![]
    } else {
        let before = pattern_rows(c, pattern, sources, span, lanes, n - 1);
        let evs = pattern_row(c, pattern, sources, span, lanes, n - 1);
        if evs.len() == 0 {
            before
        } else {
            before.push((pattern.rows@[n - 1].source, evs))
        }
    }
}

/// What a pattern clip plays.
pub open spec fn pattern_parts<K: Fn(Op, Width, u64, u64) -> u64>(c: &Calc<K>, pattern: StepPattern, sources: Seq<Source>, span: PatternSpan, lanes: Seq<AutomationLane>) -> Seq<(usize, Seq<GrainEvent>)> {
    if span.secs_per_beat.div(c, F64::of_count(c, pattern.steps_per_beat as u64)).le(double(0))
        || span.len.le(double(0)) {
        seq![]
    } else {
        pattern_rows(c, pattern, sources, span, lanes, pattern.rows@.len() as int)
    }
}

/// Events by source, as sequences.
pub open spec fn parts_view(parts: Seq<(usize, Vec<GrainEvent>)>) -> Seq<(usize, Seq<GrainEvent>)> {
    parts.map_values(|p: (usize, Vec<GrainEvent>)| (p.0, p.1@))
}

fn play_row<K: Fn(Op, Width, u64, u64) -> u64>(c: &Calc<K>, pattern: &StepPattern, sources: &Vec<Source>, span: &PatternSpan, lanes: &Vec<AutomationLane>, i: usize) -> (r: Vec<GrainEvent>)
    requires
        c.sound(),
        pattern.wf(),
        i < pattern.rows@.len(),
        span.key is Some ==> span.key->0.wf(),
    ensures
        r@ == pattern_row(c, *pattern, sources@, *span, lanes@, i as int),
{
    let row: &SeqRow = &pattern.rows[i];
    if row.source >= sources.len() {
        return Vec::new();
    }
    let source: &Source = &sources[row.source];
    let source_len: F64 = source.duration(c);
    if source_len.le(double(0)) || row.steps.len() == 0 {
        return Vec::new();
    }
    assert(pattern.rows@[i as int].wf());
    assert(pattern.rows.len() > i);
    let rs: RowSpan = RowSpan {
        start: span.start,
        len: span.len,
        secs_per_beat: span.secs_per_beat,
        step_secs: span.secs_per_beat.div(c, F64::of_count(c, pattern.steps_per_beat as u64)),
        source_len,
        base_hz: source.effective_base_hz(),
        key: if span.key.is_some() { span.key } else { row.key },
        seed: row.grains.seed ^ (i as u64 + 1).wrapping_mul(0x9E37),
        first_id: (i as u64) << 32u64,
    };
    match row.mode {
        RowMode::Steps => play_steps(c, &rs, row, lanes),
        RowMode::Loop => play_loop(c, &rs, row, lanes),
    }
}

/// Expand a pattern into grain events for a clip window.
///
/// * `clip_start_secs`/`clip_len_secs`: the pattern clip on the timeline.
///   Step rows cycle their OWN step count at the pattern's step rate
///   (polymeter); loop rows repeat their source segment continuously.
/// * `key_override`: the clip's key, taking precedence over row keys.
/// * `lanes`: the clip's automation lanes, overriding row grain params at
///   each hit's onset (lane beats relative to clip start).
///
/// Returns events grouped by source (rows can use different sources).
pub fn pattern_events<K: Fn(Op, Width, u64, u64) -> u64>(c: &Calc<K>, pattern: &StepPattern, sources: &Vec<Source>, clip_start_secs: F64, clip_len_secs: F64, secs_per_beat: F64, key_override: Option<Key>, lanes: &Vec<AutomationLane>) -> (r: Vec<(SourceId, Vec<GrainEvent>)>)
    requires
        c.sound(),
        pattern.wf(),
        key_override is Some ==> key_override->0.wf(),
    ensures
        parts_view(r@) == pattern_parts(
            c,
            *pattern,
            sources@,
            (PatternSpan {
                start: clip_start_secs,
                len: clip_len_secs,
                secs_per_beat,
                key: key_override,
            }),
            lanes@,
        ),
{
    let span: PatternSpan = PatternSpan {
        start: clip_start_secs,
        len: clip_len_secs,
        secs_per_beat,
        key: key_override,
    };
    let mut out: Vec<(SourceId, Vec<GrainEvent>)> = Vec::new();
    assert(parts_view(out@) =~= seq![]);
    let step_secs: F64 = secs_per_beat.div(c, F64::of_count(c, pattern.steps_per_beat as u64));
    if step_secs.le(double(0)) || clip_len_secs.le(double(0)) {
        return out;
    }
    let mut i: usize = 0;
    while i < pattern.rows.len()
        invariant
            c.sound(),
            pattern.wf(),
            i <= pattern.rows@.len(),
            span.key is Some ==> span.key->0.wf(),
            parts_view(out@) =~= pattern_rows(c, *pattern, sources@, span, lanes@, i as int),
        decreases pattern.rows.len() - i,
    {
        let events: Vec<GrainEvent> = play_row(c, pattern, sources, &span, lanes, i);
        if events.len() > 0 {
            let ghost before = out@;
            let ghost evs = events@;
            let source: SourceId = pattern.rows[i].source;
            out.push((source, events));
            assert(parts_view(out@) =~= parts_view(before).push((source, evs)));
        }
        i += 1;
    }
    out
}

// --------------------------------------------------------------------- laws

/// How many of the slots from `from` up to `to` are on.
pub open spec fn on_slots(steps: Seq<Step>, from: int, to: int) -> int
    decreases to - from,
{
    if to <= from {
        0
    } else {
        (if step_at(steps, from as u64).on {
            1int
        } else {
            0
        }) + on_slots(steps, from + 1, to)
    }
}

/// Whether all slots from `from` up to `to` start within a clip.
pub open spec fn slots_inside<K: Fn(Op, Width, u64, u64) -> u64>(c: &Calc<K>, span: RowSpan, from: int, to: int) -> bool {
    forall|k: int|
        from <= k <= to ==> !#[trigger] past_end(c, span, k as u64)
}

proof fn lemma_hit_found<K: Fn(Op, Width, u64, u64) -> u64>(c: &Calc<K>, span: RowSpan, grains: GrainSettings, lanes: Seq<AutomationLane>, steps: Seq<Step>, from: u64, id: u64, slot: u64)
    requires
        from <= slot < u64::MAX,
        slots_inside(c, span, from as int, slot as int),
        step_at(steps, slot).on,
    ensures
        ({
            let n = on_slots(steps, from as int, slot as int);
            let all = hits(c, span, grains, lanes, steps, from, id);
            &&& 0 <= n < all.len()
            &&& exists|i: u64|
                all[n] == #[trigger] hit(c, span, grains, lanes, step_at(steps, slot), slot, i)
        }),
    decreases slot - from,
{
    assert(!past_end(c, span, from as int as u64));
    let all = hits(c, span, grains, lanes, steps, from, id);
    if from == slot {
        assert(all[0] == hit(c, span, grains, lanes, step_at(steps, slot), slot, id));
    } else if step_at(steps, from).on {
        let next = (from + 1) as u64;
        lemma_hit_found(c, span, grains, lanes, steps, next, id.wrapping_add(1), slot);
        let rest = hits(c, span, grains, lanes, steps, next, id.wrapping_add(1));
        let n = on_slots(steps, next as int, slot as int);
        assert(all[n + 1] == rest[n]);
    } else {
        lemma_hit_found(c, span, grains, lanes, steps, (from + 1) as u64, id, slot);
    }
}

/// Whether two events are alike but for their ids.
pub open spec fn same_music(a: GrainEvent, b: GrainEvent) -> bool {
    a == GrainEvent { id: a.id, ..b }
}

/// Toggling one step leaves the others' hits as they are: where two rows agree on the
/// step of a slot, both play the same hit in it, whatever their other steps are.
pub proof fn law_toggling_steps_keeps_the_others<K: Fn(Op, Width, u64, u64) -> u64>(c: &Calc<K>, span: RowSpan, grains: GrainSettings, lanes: Seq<AutomationLane>, a: Seq<Step>, b: Seq<Step>, id: u64, slot: u64)
    requires
        slot < u64::MAX,
        slots_inside(c, span, 0, slot as int),
        step_at(a, slot) == step_at(b, slot),
        step_at(a, slot).on,
    ensures
        ({
            let i = on_slots(a, 0, slot as int);
            let j = on_slots(b, 0, slot as int);
            let x = hits(c, span, grains, lanes, a, 0, id);
            let y = hits(c, span, grains, lanes, b, 0, id);
            0 <= i < x.len() && 0 <= j < y.len() && same_music(x[i], y[j])
        }),
{
    lemma_hit_found(c, span, grains, lanes, a, 0, id, slot);
    lemma_hit_found(c, span, grains, lanes, b, 0, id, slot);
    reveal(hit);
}

proof fn lemma_hits_kept<K: Fn(Op, Width, u64, u64) -> u64>(c: &Calc<K>, span: RowSpan, grains: GrainSettings, lanes: Seq<AutomationLane>, a: Seq<Step>, b: Seq<Step>, slot: u64, ia: u64, ib: u64, n: int)
    requires
        only_switched_on(a, b),
        a.len() > 0,
        0 <= n < hits(c, span, grains, lanes, a, slot, ia).len(),
    ensures
        plays_like(hits(c, span, grains, lanes, b, slot, ib), hits(c, span, grains, lanes, a, slot, ia)[n]),
    decreases u64::MAX - slot,
{
    reveal(hit);
    let x = hits(c, span, grains, lanes, a, slot, ia);
    let y = hits(c, span, grains, lanes, b, slot, ib);
    let next = (slot + 1) as u64;
    let at = slot as int % a.len() as int;
    assert(0 <= at < a.len());
    assert(a[at] == step_at(a, slot) && b[at] == step_at(b, slot));
    if step_at(a, slot).on {
        if n == 0 {
            assert(same_music(x[0], y[0]));
        } else {
            lemma_hits_kept(c, span, grains, lanes, a, b, next, ia.wrapping_add(1), ib.wrapping_add(1), n - 1);
            let rest = hits(c, span, grains, lanes, b, next, ib.wrapping_add(1));
            let m = choose|m: int| 0 <= m < rest.len() && #[trigger] same_music(x[n], rest[m]);
            assert(y[m + 1] == rest[m]);
            assert(same_music(x[n], y[m + 1]));
        }
    } else if step_at(b, slot).on {
        lemma_hits_kept(c, span, grains, lanes, a, b, next, ia, ib.wrapping_add(1), n);
        let rest = hits(c, span, grains, lanes, b, next, ib.wrapping_add(1));
        let m = choose|m: int| 0 <= m < rest.len() && #[trigger] same_music(x[n], rest[m]);
        assert(y[m + 1] == rest[m]);
        assert(same_music(x[n], y[m + 1]));
    } else {
        lemma_hits_kept(c, span, grains, lanes, a, b, next, ia, ib, n);
    }
}

/// Whether `b` has `a`'s steps with some that are off switched on or changed.
pub open spec fn only_switched_on(a: Seq<Step>, b: Seq<Step>) -> bool {
    a.len() == b.len() && forall|k: int| 0 <= k < a.len() && (#[trigger] a[k]).on ==> b[k] == a[k]
}

/// Whether some event of a list is like `event`, but for its id.
pub open spec fn plays_like(events: Seq<GrainEvent>, event: GrainEvent) -> bool {
    exists|m: int| 0 <= m < events.len() && #[trigger] same_music(event, events[m])
}

/// Switching steps of one row on keeps every other event of the whole pattern: all
/// that any row played before, that row plays after, alike but for the ids; and the
/// other rows play exactly what they played.
pub proof fn law_switching_on_keeps_the_pattern<K: Fn(Op, Width, u64, u64) -> u64>(c: &Calc<K>, before: StepPattern, after: StepPattern, sources: Seq<Source>, span: PatternSpan, lanes: Seq<AutomationLane>, row: int)
    requires
        0 <= row < before.rows@.len(),
        after.steps_per_beat == before.steps_per_beat,
        after.rows@ == before.rows@.update(row, (SeqRow { steps: after.rows@[row].steps, ..before.rows@[row] })),
        only_switched_on(before.rows@[row].steps@, after.rows@[row].steps@),
    ensures
        forall|j: int|
            0 <= j < before.rows@.len() && j != row ==> #[trigger] pattern_row(c, after, sources, span, lanes, j)
                == pattern_row(c, before, sources, span, lanes, j),
        forall|j: int, n: int|
            0 <= j < before.rows@.len() && 0 <= n < pattern_row(c, before, sources, span, lanes, j).len()
                ==> plays_like(
                pattern_row(c, after, sources, span, lanes, j),
                #[trigger] pattern_row(c, before, sources, span, lanes, j)[n],
            ),
{
    assert forall|j: int| 0 <= j < before.rows@.len() && j != row implies #[trigger] pattern_row(
        c,
        after,
        sources,
        span,
        lanes,
        j,
    ) == pattern_row(c, before, sources, span, lanes, j) by {
        assert(after.rows@[j] == before.rows@[j]);
    }
    assert forall|j: int, n: int|
        0 <= j < before.rows@.len() && 0 <= n < pattern_row(c, before, sources, span, lanes, j).len() implies plays_like(
        pattern_row(c, after, sources, span, lanes, j),
        #[trigger] pattern_row(c, before, sources, span, lanes, j)[n],
    ) by {
        let x = pattern_row(c, before, sources, span, lanes, j);
        let y = pattern_row(c, after, sources, span, lanes, j);
        let old_row = before.rows@[j];
        let new_row = after.rows@[j];
        if j == row && old_row.mode is Steps {
            let here = row_span(c, span, before.steps_per_beat, old_row, sources[old_row.source as int], j);
            lemma_hits_kept(c, here, old_row.grains, lanes, old_row.steps@, new_row.steps@, 0, here.first_id, here.first_id, n);
        } else {
            assert(y == x);
            assert(same_music(x[n], y[n]));
        }
    }
}

/// Steps land on the grid: every hit of a row starts at the start of a slot whose
/// step, counted round the row's own steps, is on.
pub proof fn law_hits_are_on_the_grid<K: Fn(Op, Width, u64, u64) -> u64>(c: &Calc<K>, span: RowSpan, grains: GrainSettings, lanes: Seq<AutomationLane>, steps: Seq<Step>, from: u64, id: u64, n: int)
    requires
        0 <= n < hits(c, span, grains, lanes, steps, from, id).len(),
    ensures
        exists|slot: u64|
            from <= slot && step_at(steps, slot).on && !past_end(c, span, slot) && #[trigger] hit(
                c,
                span,
                grains,
                lanes,
                step_at(steps, slot),
                slot,
                hits(c, span, grains, lanes, steps, from, id)[n].id,
            ) == hits(c, span, grains, lanes, steps, from, id)[n],
    decreases u64::MAX - from,
{
    let all = hits(c, span, grains, lanes, steps, from, id);
    let next = (from + 1) as u64;
    if step_at(steps, from).on {
        let rest = hits(c, span, grains, lanes, steps, next, id.wrapping_add(1));
        if n == 0 {
            assert(all[0] == hit(c, span, grains, lanes, step_at(steps, from), from, id));
            assert(all[0].id == id) by {
                reveal(hit);
            }
        } else {
            assert(all[n] == rest[n - 1]);
            law_hits_are_on_the_grid(
                c,
                span,
                grains,
                lanes,
                steps,
                next,
                id.wrapping_add(1),
                n - 1,
            );
        }
    } else {
        law_hits_are_on_the_grid(c, span, grains, lanes, steps, next, id, n);
    }
}

/// A row's hits have ids that count up from its first one.
pub proof fn law_hit_ids_count_up<K: Fn(Op, Width, u64, u64) -> u64>(c: &Calc<K>, span: RowSpan, grains: GrainSettings, lanes: Seq<AutomationLane>, steps: Seq<Step>, from: u64, id: u64, n: int)
    requires
        0 <= n < hits(c, span, grains, lanes, steps, from, id).len(),
        id + n <= u64::MAX,
    ensures
        hits(c, span, grains, lanes, steps, from, id)[n].id == id + n,
    decreases u64::MAX - from,
{
    reveal(hit);
    let all = hits(c, span, grains, lanes, steps, from, id);
    let next = (from + 1) as u64;
    if step_at(steps, from).on {
        let rest = hits(c, span, grains, lanes, steps, next, id.wrapping_add(1));
        if n > 0 {
            assert(all[n] == rest[n - 1]);
            law_hit_ids_count_up(c, span, grains, lanes, steps, next, id.wrapping_add(1), n - 1);
        }
    } else {
        law_hit_ids_count_up(c, span, grains, lanes, steps, next, id, n);
    }
}

/// A loop row tiles its clip: each repetition starts where the one before it ends.
pub proof fn law_repetitions_are_back_to_back<K: Fn(Op, Width, u64, u64) -> u64>(c: &Calc<K>, span: RowSpan, grains: GrainSettings, lanes: Seq<AutomationLane>, from: F64, seg: F64, t: F64, k: u64, id: u64)
    requires
        k < u64::MAX,
        t.lt(span.len),
    ensures
        ({
            let all = repetitions(c, span, grains, lanes, from, seg, t, k, id);
            let g = settings_in_force(c, grains, lanes, span.secs_per_beat, t);
            let next = t.add(c, segment_out(c, seg, loop_ratio(c, span, g)));
            &&& all.len() > 0
            &&& all[0].onset == span.start.add(c, t)
            &&& all.skip(1) == repetitions(
                c,
                span,
                grains,
                lanes,
                from,
                seg,
                next,
                (k + 1) as u64,
                id.wrapping_add(1),
            )
        }),
{
    let all = repetitions(c, span, grains, lanes, from, seg, t, k, id);
    let g = settings_in_force(c, grains, lanes, span.secs_per_beat, t);
    let next = t.add(c, segment_out(c, seg, loop_ratio(c, span, g)));
    assert(all.skip(1) =~= repetitions(
        c,
        span,
        grains,
        lanes,
        from,
        seg,
        next,
        (k + 1) as u64,
        id.wrapping_add(1),
    ));
}

} // verus!
