//! Project model: sources, tracks, clips on a beat-based timeline.
use crate::audio::{samples_in, saw_sample, seconds, AudioClip};
use crate::auto::{in_order, lane_value, AutoPoint, AutomationLane};
use crate::calc::{Calc, Op, Width};
use crate::dsp::{FilterKind, FilterSpec};
use crate::fx::{AvEffect, EffectKind};
use crate::grain::GrainSettings;
use crate::music::{Key, ScaleKind};
use crate::num::{double, single, F32, F64};
use crate::seq::{grid_steps, row_preset, RowMode, SeqRow, Step, StepPattern};
use crate::video::{
    pattern_frame, AvLink, ColorFilter, ColorFilterMode, VideoClip, VisualGrainStyle,
};
use std::sync::Arc;
use vstd::prelude::*;

verus! {

pub type SourceId = usize;

/// An imported piece of media (file, YouTube rip, or procedural source).
/// Media is Arc'd so cloning a Project (performance snapshots, workers)
/// costs refcounts, not sample/frame copies.
#[derive(Debug)]
pub struct Source {
    pub name: String,
    pub audio: Option<Arc<AudioClip>>,
    pub video: Option<Arc<VideoClip>>,
    /// Estimated fundamental (Hz) used for key quantization. 0 = unknown,
    /// in which case A440 relative quantization is used.
    pub base_hz: F32,
}

impl Clone for Source {
    fn clone(&self) -> (r: Source)
        ensures
            r.same(*self),
    {
        let audio: Option<Arc<AudioClip>> = match &self.audio {
            Some(a) => Some(a.clone()),
            None => None,
        };
        let video: Option<Arc<VideoClip>> = match &self.video {
            Some(v) => Some(v.clone()),
            None => None,
        };
        Source { name: self.name.clone(), audio, video, base_hz: self.base_hz }
    }
}

impl Default for Source {
    fn default() -> (r: Source)
        ensures
            r.name@ == Seq::<char>::empty(),
            r.audio is None,
            r.video is None,
            r.base_hz == single(0),
    {
        Source { name: String::new(), audio: None, video: None, base_hz: single(0) }
    }
}

impl Source {
    /// Whether two sources hold the same.
    pub open spec fn same(self, o: Source) -> bool {
        &&& self.name@ == o.name@
        &&& self.audio == o.audio
        &&& self.video == o.video
        &&& self.base_hz == o.base_hz
    }

    /// The video's frames, where there are any, are whole.
    pub open spec fn wf(self) -> bool {
        self.video is Some ==> self.video->0.wf()
    }

    /// The longest media duration, seconds.
    pub open spec fn lasts<K: Fn(Op, Width, u64, u64) -> u64>(self, c: &Calc<K>) -> F64 {
        let a = match self.audio {
            Some(a) => seconds(c, a.samples@.len(), a.sample_rate),
            None => double(0),
        };
        let v = match self.video {
            Some(v) => v.lasts(c),
            None => double(0),
        };
        a.max(v)
    }

    /// The fundamental that pitches are quantized by, Hz.
    pub open spec fn tuned_hz(self) -> F32 {
        if single(0).lt(self.base_hz) {
            self.base_hz
        } else {
            single(0x43dc_0000)
        }
    }

    /// Longest media duration available in this source, seconds.
    pub fn duration<K: Fn(Op, Width, u64, u64) -> u64>(&self, c: &Calc<K>) -> (r: F64)
        requires
            c.sound(),
        ensures
            r == self.lasts(c),
    {
        let a: F64 = match &self.audio {
            Some(a) => a.duration(c),
            None => double(0),
        };
        let v: F64 = match &self.video {
            Some(v) => v.duration(c),
            None => double(0),
        };
        a.max(v)
    }

    pub fn effective_base_hz(&self) -> (r: F32)
        ensures
            r == self.tuned_hz(),
    {
        if single(0).lt(self.base_hz) {
            self.base_hz
        } else {
            single(0x43dc_0000)
        }
    }
}

/// What a clip does with its source.
#[derive(Clone, Copy, Debug, PartialEq, Eq, Structural)]
pub enum ClipKind {
    /// A cloud of grains (audio + visual) from the source.
    Granular,
    /// The source played straight, as ONE long grain — so the same AV
    /// correspondence machinery (gain->opacity, pitch->rate/hue, pan->x)
    /// applies to plain snippets too.
    Snippet,
    /// A step-sequencer pattern (index into `Project::patterns`), looping
    /// to fill the clip. Each triggered step is one grain event.
    Pattern(usize),
}

/// Where a clip's visuals sit on the canvas: offset (in half canvases), scale, and
/// rotation in degrees.
#[derive(Clone, Copy, Debug, PartialEq)]
pub struct ClipTransform {
    pub x: F32,
    pub y: F32,
    pub scale: F32,
    pub rotation: F32,
}

impl ClipTransform {
    /// Centered, at full size, upright.
    pub open spec fn identity() -> ClipTransform {
        ClipTransform { x: single(0), y: single(0), scale: single(0x3f80_0000), rotation: single(0) }
    }
}

impl Default for ClipTransform {
    fn default() -> (r: ClipTransform)
        ensures
            r == ClipTransform::identity(),
    {
        ClipTransform { x: single(0), y: single(0), scale: single(0x3f80_0000), rotation: single(0) }
    }
}

/// A clip placed on the timeline (positions in beats).
#[derive(Debug)]
pub struct Clip {
    pub kind: ClipKind,
    pub source: SourceId,
    pub start_beat: F64,
    pub length_beats: F64,
    /// Granular params. Snippets reuse a subset: position (source offset),
    /// pitch, gain, pan, envelope (edge fades), reverse_prob (>=0.5 =
    /// reversed).
    pub grains: GrainSettings,
    /// Quantize grain pitches onto this key.
    pub key: Option<Key>,
    /// Audio frequency filtering, applied to the source before granulation.
    pub audio_filters: Vec<FilterSpec>,
    /// Color (hue-band) filtering applied to visual grains.
    pub color_filter: Option<ColorFilter>,
    pub visual: VisualGrainStyle,
    /// The audio->visual correspondence dials (full correspondence default).
    pub link: AvLink,
    /// AV effect chain applied to this clip's audio AND its visual layer.
    pub effects: Vec<AvEffect>,
    /// Grain parameters that move over the clip.
    pub automation: Vec<AutomationLane>,
    /// Where the clip's visuals sit on the canvas.
    pub transform: ClipTransform,
}

impl Clone for Clip {
    fn clone(&self) -> (r: Clip)
        ensures
            r.same(*self),
    {
        let automation: Vec<AutomationLane> = self.automation.clone();
        let r: Clip = Clip {
            kind: self.kind,
            source: self.source,
            start_beat: self.start_beat,
            length_beats: self.length_beats,
            grains: self.grains,
            key: self.key,
            audio_filters: self.audio_filters.clone(),
            color_filter: self.color_filter,
            visual: self.visual,
            link: self.link,
            effects: self.effects.clone(),
            automation,
            transform: self.transform,
        };
        r
    }
}

impl Clip {
    /// Whether two clips hold the same.
    pub open spec fn same(self, o: Clip) -> bool {
        &&& self.kind == o.kind
        &&& self.source == o.source
        &&& self.start_beat == o.start_beat
        &&& self.length_beats == o.length_beats
        &&& self.grains == o.grains
        &&& self.key == o.key
        &&& self.audio_filters@ == o.audio_filters@
        &&& self.color_filter == o.color_filter
        &&& self.visual == o.visual
        &&& self.link == o.link
        &&& self.effects@ == o.effects@
        &&& self.automation@.len() == o.automation@.len()
        &&& forall|i: int|
            0 <= i < o.automation@.len() ==> (#[trigger] self.automation@[i]).param@
                == o.automation@[i].param@ && self.automation@[i].points@
                == o.automation@[i].points@
        &&& self.transform == o.transform
    }

    /// The key is one, and every lane's points are in order.
    pub open spec fn wf(self) -> bool {
        &&& self.key is Some ==> self.key->0.wf()
        &&& forall|i: int| 0 <= i < self.automation@.len() ==> (#[trigger] self.automation@[i]).wf()
    }

    /// Whether a clip is new: what `Clip::new` makes, but for its kind and grains.
    pub open spec fn fresh(self, source: SourceId, start_beat: F64, length_beats: F64) -> bool {
        &&& self.source == source
        &&& self.start_beat == start_beat
        &&& self.length_beats == length_beats
        &&& self.key is None
        &&& self.audio_filters@.len() == 0
        &&& self.color_filter is None
        &&& self.visual == VisualGrainStyle::standard()
        &&& self.link == AvLink::full()
        &&& self.effects@.len() == 0
        &&& self.automation@.len() == 0
        &&& self.transform == ClipTransform::identity()
    }

    pub fn new(source: SourceId, start_beat: F64, length_beats: F64) -> (r: Clip)
        ensures
            r.wf(),
            r.fresh(source, start_beat, length_beats),
            r.kind == ClipKind::Granular,
            r.grains == GrainSettings::standard(),
    {
        Clip {
            kind: ClipKind::Granular,
            source,
            start_beat,
            length_beats,
            grains: GrainSettings::default(),
            key: None,
            audio_filters: Vec::new(),
            color_filter: None,
            visual: VisualGrainStyle::default(),
            link: AvLink::default(),
            effects: Vec::new(),
            automation: Vec::new(),
            transform: ClipTransform::default(),
        }
    }

    pub fn new_snippet(source: SourceId, start_beat: F64, length_beats: F64) -> (r: Clip)
        ensures
            r.wf(),
            r.fresh(source, start_beat, length_beats),
            r.kind == ClipKind::Snippet,
            r.grains == (GrainSettings {
                envelope: single(0x3d4c_cccd),
                pan_spread: single(0),
                ..GrainSettings::standard()
            }),
    {
        let mut c: Clip = Clip::new(source, start_beat, length_beats);
        c.kind = ClipKind::Snippet;
        // Snippets default to short edge fades rather than a grain window.
        c.grains.envelope = single(0x3d4c_cccd);
        c.grains.pan_spread = single(0);
        c
    }

    pub fn new_pattern(pattern: usize, start_beat: F64, length_beats: F64) -> (r: Clip)
        ensures
            r.wf(),
            r.fresh(0, start_beat, length_beats),
            r.kind == ClipKind::Pattern(pattern),
            r.grains == GrainSettings::standard(),
    {
        let mut c: Clip = Clip::new(0, start_beat, length_beats);
        c.kind = ClipKind::Pattern(pattern);
        c
    }

    /// The beat at which the clip ends.
    pub open spec fn ends<K: Fn(Op, Width, u64, u64) -> u64>(self, c: &Calc<K>) -> F64 {
        self.start_beat.add(c, self.length_beats)
    }

    pub fn end_beat<K: Fn(Op, Width, u64, u64) -> u64>(&self, c: &Calc<K>) -> (r: F64)
        requires
            c.sound(),
        ensures
            r == self.ends(c),
    {
        self.start_beat.add(c, self.length_beats)
    }
}

/// A track: clips, a level fader, and its own AV effect chain. Track order
/// is also the video compositing order — later tracks render ON TOP.
#[derive(Debug)]
pub struct Track {
    pub name: String,
    pub clips: Vec<Clip>,
    pub muted: bool,
    /// Track AV effect chain (e.g. "this whole track has a lot of delay").
    pub effects: Vec<AvEffect>,
    /// Level fader: audio gain, and (via `level_to_opacity`) video opacity.
    pub level: F32,
    /// How strongly the level drives video opacity (correspondence dial).
    pub level_to_opacity: F32,
    /// Level automation, sorted by beat; where there are points they stand for
    /// the fader.
    pub level_points: Vec<AutoPoint>,
}

impl Clone for Track {
    fn clone(&self) -> (r: Track)
        ensures
            r.same(*self),
    {
        let clips: Vec<Clip> = self.clips.clone();
        Track {
            name: self.name.clone(),
            clips,
            muted: self.muted,
            effects: self.effects.clone(),
            level: self.level,
            level_to_opacity: self.level_to_opacity,
            level_points: self.level_points.clone(),
        }
    }
}

impl Default for Track {
    fn default() -> (r: Track)
        ensures
            r.blank(Seq::<char>::empty()),
            r.wf(),
    {
        Track {
            name: String::new(),
            clips: Vec::new(),
            muted: false,
            effects: Vec::new(),
            level: single(0x3f80_0000),
            level_to_opacity: single(0x3f80_0000),
            level_points: Vec::new(),
        }
    }
}

/// The video opacity that a level implies through its link dial.
#[verifier::allow_in_spec]
pub fn level_opacity<K: Fn(Op, Width, u64, u64) -> u64>(c: &Calc<K>, level: F32, link: F32) -> F32
    requires
        c.sound(),
    returns
        (single(0x3f80_0000).add(c, level.min(single(0x3fc0_0000)).sub(c, single(0x3f80_0000)).mul(c, link)).clamp(single(0), single(0x3f80_0000))),
{
    single(0x3f80_0000).add(c, level.min(single(0x3fc0_0000)).sub(c, single(0x3f80_0000)).mul(c, link)).clamp(single(0), single(0x3f80_0000))
}

impl Track {
    /// Whether two tracks hold the same.
    pub open spec fn same(self, o: Track) -> bool {
        &&& self.name@ == o.name@
        &&& self.clips@.len() == o.clips@.len()
        &&& forall|i: int| 0 <= i < o.clips@.len() ==> (#[trigger] self.clips@[i]).same(o.clips@[i])
        &&& self.muted == o.muted
        &&& self.effects@ == o.effects@
        &&& self.level == o.level
        &&& self.level_to_opacity == o.level_to_opacity
        &&& self.level_points@ == o.level_points@
    }

    /// Whether a track is new.
    pub open spec fn blank(self, name: Seq<char>) -> bool {
        &&& self.name@ == name
        &&& self.clips@.len() == 0
        &&& !self.muted
        &&& self.effects@.len() == 0
        &&& self.level == single(0x3f80_0000)
        &&& self.level_to_opacity == single(0x3f80_0000)
        &&& self.level_points@.len() == 0
    }

    /// Clips are in order, and so are the level's points.
    pub open spec fn wf(self) -> bool {
        &&& forall|i: int| 0 <= i < self.clips@.len() ==> (#[trigger] self.clips@[i]).wf()
        &&& in_order(self.level_points@)
    }

    /// The level at a beat: the fader, or what is automated.
    pub open spec fn level_on<K: Fn(Op, Width, u64, u64) -> u64>(self, c: &Calc<K>, beat: F64) -> F32 {
        match lane_value(c, self.level_points@, beat) {
            Some(v) => v.to_f32(c).max(single(0)),
            None => self.level.max(single(0)),
        }
    }

    /// The level at a beat: the fader, or what is automated.
    pub fn level_at<K: Fn(Op, Width, u64, u64) -> u64>(&self, c: &Calc<K>, beat: F64) -> (r: F32)
        requires
            c.sound(),
        ensures
            r == self.level_on(c, beat),
    {
        match crate::auto::points_value_at(c, &self.level_points, beat) {
            Some(v) => v.to_f32(c).max(single(0)),
            None => self.level.max(single(0)),
        }
    }

    /// Video opacity implied by the level fader and its link dial.
    pub fn opacity<K: Fn(Op, Width, u64, u64) -> u64>(&self, c: &Calc<K>) -> (r: F32)
        requires
            c.sound(),
        ensures
            r == level_opacity(c, self.level, self.level_to_opacity),
    {
        level_opacity(c, self.level, self.level_to_opacity)
    }

    /// Video opacity implied by the level at a beat.
    pub fn opacity_at<K: Fn(Op, Width, u64, u64) -> u64>(&self, c: &Calc<K>, beat: F64) -> (r: F32)
        requires
            c.sound(),
        ensures
            r == level_opacity(c, self.level_on(c, beat), self.level_to_opacity),
    {
        level_opacity(c, self.level_at(c, beat), self.level_to_opacity)
    }
}

/// A whole chromagrain project.
#[derive(Debug)]
pub struct Project {
    pub bpm: F64,
    pub sample_rate: u32,
    /// Output canvas.
    pub width: u32,
    pub height: u32,
    pub fps: F32,
    pub sources: Vec<Source>,
    pub tracks: Vec<Track>,
    /// Step-sequencer patterns, referenced by pattern clips.
    pub patterns: Vec<StepPattern>,
    /// Master AV effect chain applied to the final mix and final frames.
    pub master_effects: Vec<AvEffect>,
    /// UI snap grid in beats (0.25 = sixteenths at x/4).
    pub quantize: F64,
}

impl Clone for Project {
    fn clone(&self) -> (r: Project)
        ensures
            r.same(*self),
            self.wf() ==> r.wf(),
    {
        let r: Project = Project {
            bpm: self.bpm,
            sample_rate: self.sample_rate,
            width: self.width,
            height: self.height,
            fps: self.fps,
            sources: self.sources.clone(),
            tracks: self.tracks.clone(),
            patterns: self.patterns.clone(),
            master_effects: self.master_effects.clone(),
            quantize: self.quantize,
        };
        proof {
            if self.wf() {
                assert forall|i: int| 0 <= i < r.sources@.len() implies (#[trigger] r.sources@[i]).wf() by {
                    assert(self.sources@[i].wf());
                }
                assert forall|i: int| 0 <= i < r.tracks@.len() implies (#[trigger] r.tracks@[i]).wf() by {
                    assert(self.tracks@[i].wf());
                    assert forall|k: int| 0 <= k < r.tracks@[i].clips@.len() implies (
                    #[trigger] r.tracks@[i].clips@[k]).wf() by {
                        assert(r.tracks@[i].clips@[k].same(self.tracks@[i].clips@[k]));
                        assert(self.tracks@[i].clips@[k].wf());
                        let a = r.tracks@[i].clips@[k];
                        let b = self.tracks@[i].clips@[k];
                        assert forall|m: int| 0 <= m < a.automation@.len() implies (
                        #[trigger] a.automation@[m]).wf() by {
                            assert(b.automation@[m].wf());
                        }
                    }
                }
                assert forall|i: int| 0 <= i < r.patterns@.len() implies (#[trigger] r.patterns@[i]).wf() by {
                    assert(self.patterns@[i].wf());
                    assert forall|k: int| 0 <= k < r.patterns@[i].rows@.len() implies (
                    #[trigger] r.patterns@[i].rows@[k]).wf() by {
                        assert(r.patterns@[i].rows@[k].same(self.patterns@[i].rows@[k]));
                        assert(self.patterns@[i].rows@[k].wf());
                    }
                }
            }
        }
        r
    }
}

impl Default for Project {
    fn default() -> (r: Project)
        ensures
            r.wf(),
            r.bpm == double(0x405b_8000_0000_0000),
            r.sample_rate == 48000,
            r.width == 640,
            r.height == 360,
            r.fps == single(0x41c0_0000),
            r.sources@.len() == 0,
            r.tracks@.len() == 0,
            r.patterns@.len() == 0,
            r.master_effects@.len() == 0,
            r.quantize == double(0x3fd0_0000_0000_0000),
    {
        Project {
            bpm: double(0x405b_8000_0000_0000),
            sample_rate: 48000,
            width: 640,
            height: 360,
            fps: single(0x41c0_0000),
            sources: Vec::new(),
            tracks: Vec::new(),
            patterns: Vec::new(),
            master_effects: Vec::new(),
            quantize: double(0x3fd0_0000_0000_0000),
        }
    }
}

/// Beats in seconds at a tempo.
#[verifier::allow_in_spec]
pub fn secs_of_beats<K: Fn(Op, Width, u64, u64) -> u64>(c: &Calc<K>, bpm: F64, beats: F64) -> F64
    requires
        c.sound(),
    returns
        (beats.mul(c, double(0x404e_0000_0000_0000)).div(c, bpm)),
{
    beats.mul(c, double(0x404e_0000_0000_0000)).div(c, bpm)
}

/// Seconds in beats at a tempo.
#[verifier::allow_in_spec]
pub fn beats_of_secs<K: Fn(Op, Width, u64, u64) -> u64>(c: &Calc<K>, bpm: F64, secs: F64) -> F64
    requires
        c.sound(),
    returns
        (secs.mul(c, bpm).div(c, double(0x404e_0000_0000_0000))),
{
    secs.mul(c, bpm).div(c, double(0x404e_0000_0000_0000))
}

/// The last beat that the first `n` of a run of clips cover, from `from` on.
pub open spec fn clips_end<K: Fn(Op, Width, u64, u64) -> u64>(c: &Calc<K>, clips: Seq<Clip>, from: F64, n: int) -> F64
    decreases n,
{
    if n <= 0 {
        from
    } else {
        clips_end(c, clips, from, n - 1).max(clips[n - 1].ends(c))
    }
}

/// The last beat that any clip of the first `n` tracks covers.
pub open spec fn tracks_end<K: Fn(Op, Width, u64, u64) -> u64>(c: &Calc<K>, tracks: Seq<Track>, n: int) -> F64
    decreases n,
{
    if n <= 0 {
        double(0)
    } else {
        clips_end(
            c,
            tracks[n - 1].clips@,
            tracks_end(c, tracks, n - 1),
            tracks[n - 1].clips@.len() as int,
        )
    }
}

impl Project {
    /// Whether two projects hold the same.
    pub open spec fn same(self, o: Project) -> bool {
        &&& self.bpm == o.bpm
        &&& self.sample_rate == o.sample_rate
        &&& self.width == o.width
        &&& self.height == o.height
        &&& self.fps == o.fps
        &&& self.sources@.len() == o.sources@.len()
        &&& forall|i: int| 0 <= i < o.sources@.len() ==> (#[trigger] self.sources@[i]).same(o.sources@[i])
        &&& self.tracks@.len() == o.tracks@.len()
        &&& forall|i: int| 0 <= i < o.tracks@.len() ==> (#[trigger] self.tracks@[i]).same(o.tracks@[i])
        &&& self.patterns@.len() == o.patterns@.len()
        &&& forall|i: int| 0 <= i < o.patterns@.len() ==> (#[trigger] self.patterns@[i]).same(o.patterns@[i])
        &&& self.master_effects@ == o.master_effects@
        &&& self.quantize == o.quantize
    }

    /// Sources, tracks and patterns are in order, and a frame's bytes fit in 32 bits.
    pub open spec fn wf(self) -> bool {
        &&& self.width * self.height * 4 <= u32::MAX
        &&& forall|i: int| 0 <= i < self.sources@.len() ==> (#[trigger] self.sources@[i]).wf()
        &&& forall|i: int| 0 <= i < self.tracks@.len() ==> (#[trigger] self.tracks@[i]).wf()
        &&& forall|i: int| 0 <= i < self.patterns@.len() ==> (#[trigger] self.patterns@[i]).wf()
    }

    /// Whether all but the sources is as in another project.
    pub open spec fn same_but_sources(self, o: Project) -> bool {
        self == Project { sources: self.sources, ..o }
    }

    pub fn beats_to_secs<K: Fn(Op, Width, u64, u64) -> u64>(&self, c: &Calc<K>, beats: F64) -> (r: F64)
        requires
            c.sound(),
        ensures
            r == secs_of_beats(c, self.bpm, beats),
    {
        secs_of_beats(c, self.bpm, beats)
    }

    pub fn secs_to_beats<K: Fn(Op, Width, u64, u64) -> u64>(&self, c: &Calc<K>, secs: F64) -> (r: F64)
        requires
            c.sound(),
        ensures
            r == beats_of_secs(c, self.bpm, secs),
    {
        beats_of_secs(c, self.bpm, secs)
    }

    pub fn add_source(&mut self, source: Source) -> (r: SourceId)
        ensures
            r == old(self).sources@.len(),
            final(self).sources@ == old(self).sources@.push(source),
            final(self).same_but_sources(*old(self)),
    {
        self.sources.push(source);
        self.sources.len() - 1
    }

    pub fn add_track(&mut self, name: &str) -> (r: usize)
        ensures
            r == old(self).tracks@.len(),
            final(self).tracks@.len() == r + 1,
            forall|i: int| 0 <= i < r ==> final(self).tracks@[i] == old(self).tracks@[i],
            final(self).tracks@[r as int].blank(name@),
            *final(self) == (Project { tracks: final(self).tracks, ..*old(self) }),
    {
        let mut t: Track = Track::default();
        t.name = name.to_owned();
        self.tracks.push(t);
        self.tracks.len() - 1
    }

    pub fn add_pattern(&mut self, pattern: StepPattern) -> (r: usize)
        ensures
            r == old(self).patterns@.len(),
            final(self).patterns@ == old(self).patterns@.push(pattern),
            *final(self) == (Project { patterns: final(self).patterns, ..*old(self) }),
    {
        self.patterns.push(pattern);
        self.patterns.len() - 1
    }

    /// Last beat covered by any clip.
    pub fn end_beat<K: Fn(Op, Width, u64, u64) -> u64>(&self, c: &Calc<K>) -> (r: F64)
        requires
            c.sound(),
        ensures
            r == tracks_end(c, self.tracks@, self.tracks@.len() as int),
    {
        let mut end: F64 = double(0);
        let mut i: usize = 0;
        while i < self.tracks.len()
            invariant
                c.sound(),
                i <= self.tracks@.len(),
                end == tracks_end(c, self.tracks@, i as int),
            decreases self.tracks.len() - i,
        {
            let clips: &Vec<Clip> = &self.tracks[i].clips;
            let ghost from = end;
            let mut k: usize = 0;
            while k < clips.len()
                invariant
                    c.sound(),
                    k <= clips@.len(),
                    end == clips_end(c, clips@, from, k as int),
                decreases clips.len() - k,
            {
                end = end.max(clips[k].end_beat(c));
                k += 1;
            }
            i += 1;
        }
        end
    }
}

// --------------------------------------------------------------------- demo

/// Whether a source is the procedural one of the demo: a stack of saws at 110 Hz and
/// the test clip, four seconds each.
pub open spec fn demo_media<K: Fn(Op, Width, u64, u64) -> u64>(c: &Calc<K>, s: Source, sample_rate: u32) -> bool {
    let n = samples_in(c, single(0x4080_0000), sample_rate);
    let frames = single(0x4140_0000).mul(c, single(0x4080_0000)).to_size(c);
    &&& s.wf()
    &&& s.base_hz == single(0x42dc_0000)
    &&& s.audio is Some
    &&& s.audio->0.sample_rate == sample_rate
    &&& s.audio->0.samples@ == Seq::new(
        n as nat,
        |i: int| saw_sample(c, single(0x42dc_0000), sample_rate, i as u64, n as u64),
    )
    &&& s.video is Some
    &&& s.video->0.fps == single(0x4140_0000)
    &&& s.video->0.frames@.len() == frames
    &&& forall|f: int|
        0 <= f < frames ==> (#[trigger] s.video->0.frames@[f])@ == pattern_frame(
            c,
            f as u64,
            240,
            136,
            single(0x4140_0000),
        )
}

/// The procedural source of the demo, under a name.
pub fn demo_source<K: Fn(Op, Width, u64, u64) -> u64>(c: &Calc<K>, name: &str, sample_rate: u32) -> (r: Source)
    requires
        c.sound(),
    ensures
        r.name@ == name@,
        demo_media(c, r, sample_rate),
{
    let audio: AudioClip = AudioClip::saw_stack(c, single(0x42dc_0000), single(0x4080_0000), sample_rate);
    let video: VideoClip = VideoClip::test_pattern(c, 240, 136, single(0x4140_0000), single(0x4080_0000));
    Source {
        name: name.to_owned(),
        audio: Some(Arc::new(audio)),
        video: Some(Arc::new(video)),
        base_hz: single(0x42dc_0000),
    }
}

/// The key of the demo: A minor pentatonic.
pub open spec fn demo_key() -> Key {
    Key { root: 9, scale: ScaleKind::MinorPentatonic }
}

fn demo_cloud(source: SourceId) -> (r: Clip)
    ensures
        r.wf(),
        is_demo_cloud(r, source),
{
    let mut clip: Clip = Clip::new(source, double(0), double(0x4020_0000_0000_0000));
    clip.key = Some(Key::new(9, ScaleKind::MinorPentatonic));
    clip.grains.density = single(0x41c0_0000);
    clip.grains.duration = single(0x3e19_999a);
    clip.grains.pitch_jitter = single(0x4140_0000);
    clip.grains.spray = single(0x3ecc_cccd);
    clip.grains.scan_speed = single(0x3f00_0000);
    clip.audio_filters.push(FilterSpec { kind: FilterKind::LowPass, freq: single(0x451c_4000), q: single(0x3f66_6666) });
    assert(clip.audio_filters@ =~= seq![
        FilterSpec { kind: FilterKind::LowPass, freq: single(0x451c_4000), q: single(0x3f66_6666) },
    ]);
    clip
}

/// The demo's first cloud: eight beats, low-passed.
pub open spec fn is_demo_cloud(r: Clip, source: SourceId) -> bool {
    &&& r.kind == ClipKind::Granular
    &&& r.source == source
    &&& r.start_beat == double(0)
    &&& r.length_beats == double(0x4020_0000_0000_0000)
    &&& r.key == Some(demo_key())
    &&& r.grains == (GrainSettings {
        density: single(0x41c0_0000),
        duration: single(0x3e19_999a),
        pitch_jitter: single(0x4140_0000),
        spray: single(0x3ecc_cccd),
        scan_speed: single(0x3f00_0000),
        ..GrainSettings::standard()
    })
    &&& r.audio_filters@ == seq![
        FilterSpec { kind: FilterKind::LowPass, freq: single(0x451c_4000), q: single(0x3f66_6666) },
    ]
    &&& r.color_filter is None
    &&& r.effects@.len() == 0
    &&& r.visual == VisualGrainStyle::standard()
    &&& r.link == AvLink::full()
    &&& r.automation@.len() == 0
    &&& r.transform == ClipTransform::identity()
}

fn demo_sparks(source: SourceId) -> (r: Clip)
    ensures
        r.wf(),
        is_demo_sparks(r, source),
{
    let mut clip: Clip = Clip::new(source, double(0x4010_0000_0000_0000), double(0x4010_0000_0000_0000));
    clip.key = Some(Key::new(9, ScaleKind::MinorPentatonic));
    clip.grains.density = single(0x4220_0000);
    clip.grains.duration = single(0x3d75_c28f);
    clip.grains.pitch = single(0x4140_0000);
    clip.grains.pitch_jitter = single(0x40e0_0000);
    clip.grains.spray = single(0x3f4c_cccd);
    clip.grains.gain = single(0x3f00_0000);
    clip.grains.reverse_prob = single(0x3e99_999a);
    clip.grains.seed = 77;
    clip.color_filter = Some(ColorFilter::keep(single(0x4348_0000), single(0x4320_0000)));
    let fx: AvEffect = AvEffect::new(EffectKind::Crush { downsample: single(0x40a0_0000), bits: single(0x40a0_0000) });
    clip.effects.push(fx);
    assert(clip.effects@ =~= seq![
        AvEffect {
            kind: EffectKind::Crush { downsample: single(0x40a0_0000), bits: single(0x40a0_0000) },
            audio: single(0x3f80_0000),
            video: single(0x3f80_0000),
        },
    ]);
    clip
}

/// The demo's second cloud: from the fifth beat, an octave up, crushed and coloured.
pub open spec fn is_demo_sparks(r: Clip, source: SourceId) -> bool {
    &&& r.kind == ClipKind::Granular
    &&& r.source == source
    &&& r.start_beat == double(0x4010_0000_0000_0000)
    &&& r.length_beats == double(0x4010_0000_0000_0000)
    &&& r.key == Some(demo_key())
    &&& r.grains == (GrainSettings {
        density: single(0x4220_0000),
        duration: single(0x3d75_c28f),
        pitch: single(0x4140_0000),
        pitch_jitter: single(0x40e0_0000),
        spray: single(0x3f4c_cccd),
        gain: single(0x3f00_0000),
        reverse_prob: single(0x3e99_999a),
        seed: 77,
        ..GrainSettings::standard()
    })
    &&& r.audio_filters@.len() == 0
    &&& r.color_filter == Some(ColorFilter::band(ColorFilterMode::Keep, single(0x4348_0000), single(0x4320_0000)))
    &&& r.effects@ == seq![
        AvEffect {
            kind: EffectKind::Crush { downsample: single(0x40a0_0000), bits: single(0x40a0_0000) },
            audio: single(0x3f80_0000),
            video: single(0x3f80_0000),
        },
    ]
    &&& r.visual == VisualGrainStyle::standard()
    &&& r.link == AvLink::full()
    &&& r.automation@.len() == 0
    &&& r.transform == ClipTransform::identity()
}

fn demo_bed(source: SourceId) -> (r: Clip)
    ensures
        r.wf(),
        is_demo_bed(r, source),
{
    let mut clip: Clip = Clip::new_snippet(source, double(0), double(0x4020_0000_0000_0000));
    clip.grains.pitch = single(0xc140_0000);
    clip.grains.gain = single(0x3eb3_3333);
    clip
}

/// The demo's bed: the source played straight, an octave down, dimmed.
pub open spec fn is_demo_bed(r: Clip, source: SourceId) -> bool {
    &&& r.fresh(source, double(0), double(0x4020_0000_0000_0000))
    &&& r.kind == ClipKind::Snippet
    &&& r.grains == (GrainSettings {
        envelope: single(0x3d4c_cccd),
        pan_spread: single(0),
        pitch: single(0xc140_0000),
        gain: single(0x3eb3_3333),
        ..GrainSettings::standard()
    })
}

fn turn_on(steps: &mut Vec<Step>, at: usize)
    ensures
        final(steps)@ == if at < old(steps)@.len() {
            old(steps)@.update(at as int, (Step { on: true, ..old(steps)@[at as int] }))
        } else {
            old(steps)@
        },
{
    if at < steps.len() {
        let s: Step = steps[at];
        steps.set(at, Step { on: true, pitch: s.pitch, gain: s.gain });
    }
}

/// Steps that are on in the places given, of those that there are.
pub open spec fn steps_on(n: nat, places: Seq<int>) -> Seq<Step> {
    Seq::new(n, |i: int| Step { on: places.contains(i), ..Step::off() })
}

fn demo_pattern<K: Fn(Op, Width, u64, u64) -> u64>(c: &Calc<K>, source: SourceId) -> (r: StepPattern)
    requires
        c.sound(),
    ensures
        r.wf(),
        is_demo_pattern(c, r, source),
{
    let mut pat: StepPattern = StepPattern::new("hits");
    let n: usize = pat.n_steps(c);
    let mut low: SeqRow = SeqRow::new(source, n);
    low.grains.pitch = single(0xc140_0000);
    low.grains.duration = single(0x3e99_999a);
    low.key = Some(Key::new(9, ScaleKind::MinorPentatonic));
    turn_on(&mut low.steps, 0);
    turn_on(&mut low.steps, 4);
    turn_on(&mut low.steps, 8);
    turn_on(&mut low.steps, 12);
    proof {
        let p = seq![0int, 4, 8, 12];
        assert(p[0] == 0 && p[1] == 4 && p[2] == 8 && p[3] == 12);
        assert(low.steps@ =~= steps_on(n as nat, p));
    }
    let mut high: SeqRow = SeqRow::new(source, n);
    high.grains.pitch = single(0x4140_0000);
    high.grains.duration = single(0x3df5_c28f);
    high.grains.gain = single(0x3f00_0000);
    high.key = Some(Key::new(9, ScaleKind::MinorPentatonic));
    turn_on(&mut high.steps, 6);
    turn_on(&mut high.steps, 10);
    turn_on(&mut high.steps, 14);
    proof {
        let p = seq![6int, 10, 14];
        assert(p[0] == 6 && p[1] == 10 && p[2] == 14);
        assert(high.steps@ =~= steps_on(n as nat, p));
    }
    pat.rows.push(low);
    pat.rows.push(high);
    pat
}

/// The demo's pattern: low hits on the beat, answered up an octave.
pub open spec fn is_demo_pattern<K: Fn(Op, Width, u64, u64) -> u64>(c: &Calc<K>, r: StepPattern, source: SourceId) -> bool {
    let n = grid_steps(c, double(0x4010_0000_0000_0000), 4) as nat;
    &&& r.name@ == "hits"@
    &&& r.steps_per_beat == 4
    &&& r.length_beats == double(0x4010_0000_0000_0000)
    &&& r.rows@.len() == 2
    &&& r.rows@[0].source == source
    &&& r.rows@[0].grains == (GrainSettings { pitch: single(0xc140_0000), duration: single(0x3e99_999a), ..row_preset() })
    &&& r.rows@[0].steps@ == steps_on(n, seq![0int, 4, 8, 12])
    &&& r.rows@[1].source == source
    &&& r.rows@[1].grains == (GrainSettings {
        pitch: single(0x4140_0000),
        duration: single(0x3df5_c28f),
        gain: single(0x3f00_0000),
        ..row_preset()
    })
    &&& r.rows@[1].steps@ == steps_on(n, seq![6int, 10, 14])
    &&& forall|i: int|
        0 <= i < 2 ==> (#[trigger] r.rows@[i]).key == Some(demo_key()) && r.rows@[i].mode
            == RowMode::Steps && r.rows@[i].loop_start == single(0) && r.rows@[i].loop_end
            == single(0x3f80_0000)
}

/// A track with one clip.
pub open spec fn is_demo_track(t: Track, name: Seq<char>, effects: Seq<AvEffect>) -> bool {
    &&& t.name@ == name
    &&& t.clips@.len() == 1
    &&& !t.muted
    &&& t.effects@ == effects
    &&& t.level == single(0x3f80_0000)
    &&& t.level_to_opacity == single(0x3f80_0000)
    &&& t.level_points@.len() == 0
}

fn demo_track(name: &str, clip: Clip, effects: Vec<AvEffect>) -> (r: Track)
    requires
        clip.wf(),
    ensures
        r.wf(),
        is_demo_track(r, name@, effects@),
        r.clips@[0] == clip,
{
    let mut t: Track = Track::default();
    t.name = name.to_owned();
    t.clips.push(clip);
    t.effects = effects;
    t
}

/// The echo of the demo's sequenced track.
pub open spec fn demo_echo() -> AvEffect {
    AvEffect {
        kind: EffectKind::Delay {
            time: single(0x3ee6_6666),
            feedback: single(0x3ee6_6666),
            mix: single(0x3f00_0000),
            shift_x: single(0x3d23_d70a),
            shift_y: single(0x3ca3_d70a),
        },
        audio: single(0x3f80_0000),
        video: single(0x3f80_0000),
    }
}

impl Project {
    /// A ready-to-play demo project built from procedural sources — used by
    /// the app on first launch and by integration tests.
    pub fn demo<K: Fn(Op, Width, u64, u64) -> u64>(c: &Calc<K>) -> (r: Project)
        requires
            c.sound(),
        ensures
            r.wf(),
            r.bpm == double(0x4059_0000_0000_0000),
            r.sample_rate == 48000,
            r.width == 480,
            r.height == 270,
            r.fps == single(0x41c0_0000),
            r.quantize == double(0x3fd0_0000_0000_0000),
            r.sources@.len() == 1,
            r.sources@[0].name@ == "saw stack (A2)"@,
            demo_media(c, r.sources@[0], 48000),
            r.tracks@.len() == 4,
            is_demo_track(r.tracks@[0], "bed (snippet)"@, seq![]),
            is_demo_bed(r.tracks@[0].clips@[0], 0),
            is_demo_track(r.tracks@[1], "grains A"@, seq![]),
            is_demo_cloud(r.tracks@[1].clips@[0], 0),
            is_demo_track(r.tracks@[2], "grains B"@, seq![]),
            is_demo_sparks(r.tracks@[2].clips@[0], 0),
            is_demo_track(r.tracks@[3], "seq"@, seq![demo_echo()]),
            r.tracks@[3].clips@[0].fresh(0, double(0), double(0x4020_0000_0000_0000)),
            r.tracks@[3].clips@[0].kind == ClipKind::Pattern(0),
            r.tracks@[3].clips@[0].grains == GrainSettings::standard(),
            r.patterns@.len() == 1,
            is_demo_pattern(c, r.patterns@[0], 0),
            r.master_effects@ == seq![
                AvEffect {
                    kind: EffectKind::Reverb { size: single(0x3f00_0000), damp: single(0x3ecc_cccd), mix: single(0x3e4c_cccd) },
                    audio: single(0x3f80_0000),
                    video: single(0x3f80_0000),
                },
            ],
    {
        let mut p: Project = Project::default();
        p.bpm = double(0x4059_0000_0000_0000);
        p.width = 480;
        p.height = 270;
        let tone: Source = demo_source(c, "saw stack (A2)", p.sample_rate);
        p.sources.push(tone);
        // The snippet bed sits at the bottom of the stack.
        p.tracks.push(demo_track("bed (snippet)", demo_bed(0), Vec::new()));
        p.tracks.push(demo_track("grains A", demo_cloud(0), Vec::new()));
        p.tracks.push(demo_track("grains B", demo_sparks(0), Vec::new()));
        let pattern: StepPattern = demo_pattern(c, 0);
        p.patterns.push(pattern);
        // The whole seq track echoes: a track-level AV delay.
        let mut echo: Vec<AvEffect> = Vec::new();
        echo.push(
            AvEffect::new(
                EffectKind::Delay {
                    time: single(0x3ee6_6666),
                    feedback: single(0x3ee6_6666),
                    mix: single(0x3f00_0000),
                    shift_x: single(0x3d23_d70a),
                    shift_y: single(0x3ca3_d70a),
                },
            ),
        );
        assert(echo@ =~= seq![demo_echo()]);
        p.tracks.push(demo_track("seq", Clip::new_pattern(0, double(0), double(0x4020_0000_0000_0000)), echo));
        // Gentle master smear ties it together.
        p.master_effects.push(
            AvEffect::new(EffectKind::Reverb { size: single(0x3f00_0000), damp: single(0x3ecc_cccd), mix: single(0x3e4c_cccd) }),
        );
        assert(p.master_effects@ =~= seq![
            AvEffect {
                kind: EffectKind::Reverb { size: single(0x3f00_0000), damp: single(0x3ecc_cccd), mix: single(0x3e4c_cccd) },
                audio: single(0x3f80_0000),
                video: single(0x3f80_0000),
            },
        ]);
        assert(p.tracks@[0].wf() && p.tracks@[1].wf() && p.tracks@[2].wf() && p.tracks@[3].wf());
        p
    }
}

} // verus!
