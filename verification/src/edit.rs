//! What the hands do: what is selected, and what clicks, drags and buttons change.
use crate::calc::{Calc, Op, Width};
use crate::dsp::{FilterKind, FilterSpec};
use crate::figures::{fixed_single, push_single};
use crate::fx::{effect_named, AvEffect, EffectKind};
use crate::grain::GrainSettings;
use crate::music::{Key, ScaleKind};
use crate::num::{double, single, F32, F64};
use crate::script::{
    clip_placed, lemma_clip_changed, lemma_pattern_changed, lemma_row_changed,
    lemma_track_changed, only_clip, only_pattern, only_row, only_track, same_track_but_clips,
};
use crate::seq::{grid_steps, row_preset, RowMode, SeqRow, Step, StepPattern};
use crate::text;
use crate::timeline::{
    demo_media, demo_source, Clip, ClipKind, Project, Source, Track,
};
use crate::video::{rgb_of, ColorFilter, ColorFilterMode};
use vstd::prelude::*;

verus! {

/// What is selected, where the playhead stands, and which edits have been taken up.
#[derive(Clone, Copy, Debug)]
pub struct Desk {
    pub selected_track: usize,
    pub selected_clip: Option<(usize, usize)>,
    pub selected_source: usize,
    pub selected_pattern: usize,
    pub loop_on: bool,
    pub loop_start: F64,
    pub loop_end: F64,
    pub playhead_beats: F64,
    /// Counts edits.
    pub project_rev: u64,
    /// The edit that playing is up to.
    pub plan_rev: u64,
}

/// A clip to add at the playhead.
#[derive(Clone, Copy, Debug, PartialEq, Eq, Structural)]
pub enum AddKind {
    Granular,
    Snippet,
    Pattern,
}

/// Whether a project holds a clip at a place.
pub open spec fn holds(p: Project, at: Option<(usize, usize)>) -> bool {
    match at {
        Some((t, i)) => t < p.tracks@.len() && i < p.tracks@[t as int].clips@.len(),
        None => false,
    }
}

/// The clip at a place that a project holds.
pub open spec fn held(p: Project, at: Option<(usize, usize)>) -> Clip {
    p.tracks@[(at->0).0 as int].clips@[(at->0).1 as int]
}

/// A beat moved to the grid.
#[verifier::allow_in_spec]
pub fn snapped<K: Fn(Op, Width, u64, u64) -> u64>(c: &Calc<K>, beat: F64, grid: F64) -> F64
    requires
        c.sound(),
    returns
        (beat.div(c, grid).round(c).mul(c, grid)),
{
    beat.div(c, grid).round(c).mul(c, grid)
}

/// The grid that a quantize value stands for: never finer than a 64th.
#[verifier::allow_in_spec]
pub fn grid_of(quantize: F64) -> F64
    returns
        (quantize.max(double(0x3fb0_0000_0000_0000))),
{
    quantize.max(double(0x3fb0_0000_0000_0000))
}

/// The hue of a clip in the timeline, degrees.
#[verifier::allow_in_spec]
pub fn clip_hue<K: Fn(Op, Width, u64, u64) -> u64>(c: &Calc<K>, seed: u64) -> F32
    requires
        c.sound(),
    returns
        (F32::of_count(c, seed).mul(c, single(0x4286_0000)).add(c, single(0x4140_0000)).rem(c, single(0x43b4_0000))),
{
    F32::of_count(c, seed).mul(c, single(0x4286_0000)).add(c, single(0x4140_0000)).rem(c, single(0x43b4_0000))
}

/// The name of a grid.
pub fn quantize_label(q: F64) -> (r: &'static str)
    ensures
        r@ == if double(0x3ff0_0000_0000_0000).le(q) {
            "1/4"@
        } else if double(0x3fe0_0000_0000_0000).le(q) {
            "1/8"@
        } else if double(0x3fd0_0000_0000_0000).le(q) {
            "1/16"@
        } else {
            "1/32"@
        },
{
    if double(0x3ff0_0000_0000_0000).le(q) {
        "1/4"
    } else if double(0x3fe0_0000_0000_0000).le(q) {
        "1/8"
    } else if double(0x3fd0_0000_0000_0000).le(q) {
        "1/16"
    } else {
        "1/32"
    }
}

/// What a clip is called in the timeline.
pub open spec fn clip_label(kind: ClipKind) -> Seq<char> {
    match kind {
        ClipKind::Granular => "grains"@,
        ClipKind::Snippet => "snippet"@,
        ClipKind::Pattern(_) => "pattern"@,
    }
}

/// What colours a clip in the timeline.
pub open spec fn clip_seed(clip: Clip) -> u64 {
    match clip.kind {
        ClipKind::Pattern(p) => (p as u64).wrapping_add(7),
        _ => clip.source as u64,
    }
}

/// A clip's label and colour in the timeline.
pub fn clip_face<K: Fn(Op, Width, u64, u64) -> u64>(c: &Calc<K>, clip: &Clip, selected: bool) -> (r: (&'static str, (u8, u8, u8)))
    requires
        c.sound(),
    ensures
        r.0@ == clip_label(clip.kind),
        r.1 == rgb_of(
            c,
            clip_hue(c, clip_seed(*clip)),
            single(0x3ee6_6666),
            if selected {
                single(0x3f4c_cccd)
            } else {
                single(0x3ed7_0a3d)
            },
        ),
{
    let (label, seed): (&'static str, u64) = match clip.kind {
        ClipKind::Granular => ("grains", clip.source as u64),
        ClipKind::Snippet => ("snippet", clip.source as u64),
        ClipKind::Pattern(p) => ("pattern", (p as u64).wrapping_add(7)),
    };
    let v: F32 = if selected {
        single(0x3f4c_cccd)
    } else {
        single(0x3ed7_0a3d)
    };
    (label, crate::video::hsv_to_rgb(c, clip_hue(c, seed), single(0x3ee6_6666), v))
}

/// What is said of a source that was loaded.
pub fn loaded_line(name: &str, base_hz: F32) -> (r: String)
    ensures
        r@ == if single(0).lt(base_hz) {
            "loaded '"@ + name@ + "' (base pitch ≈ "@ + fixed_single(base_hz, 1) + " Hz)"@
        } else {
            "loaded '"@ + name@ + "'"@
        },
{
    let mut out: String = "loaded '".to_owned();
    out.append(name);
    if single(0).lt(base_hz) {
        out.append("' (base pitch ≈ ");
        push_single(&mut out, base_hz, 1);
        out.append(" Hz)");
    } else {
        out.append("'");
    }
    out
}

/// Whether a render is saved as sound alone.
pub fn saves_sound_alone(wav_only: bool, can_encode: bool) -> (r: bool)
    ensures
        r == (wav_only || !can_encode),
{
    wav_only || !can_encode
}

fn numbered(what: &str, n: usize) -> (r: String)
    requires
        n < usize::MAX,
    ensures
        r@ == what@ + text::decimal((n + 1) as nat),
{
    let mut out: String = what.to_owned();
    text::push_decimal(&mut out, n as u64 + 1);
    out
}

// ------------------------------------------------------------------- desk

/// Whether a row is as it is when added to a pattern: the preset, no key, and silent steps
/// for the pattern's grid.
pub open spec fn is_new_row<K: Fn(Op, Width, u64, u64) -> u64>(c: &Calc<K>, row: SeqRow, source: int, pattern: StepPattern) -> bool {
    &&& row.source == source
    &&& row.grains == row_preset()
    &&& row.key is None
    &&& row.mode == RowMode::Steps
    &&& row.steps@ == Seq::new(
        grid_steps(c, pattern.length_beats, pattern.steps_per_beat) as nat,
        |i: int| Step::off(),
    )
    &&& row.loop_start == single(0)
    &&& row.loop_end == single(0x3f80_0000)
}

impl Desk {
    /// The desk of a project that was just opened.
    pub fn new() -> (r: Desk)
        ensures
            r == (Desk {
                selected_track: 0,
                selected_clip: Some((0, 0)),
                selected_source: 0,
                selected_pattern: 0,
                loop_on: false,
                loop_start: double(0),
                loop_end: double(0x4020_0000_0000_0000),
                playhead_beats: double(0),
                project_rev: 1,
                plan_rev: 1,
            }),
    {
        Desk {
            selected_track: 0,
            selected_clip: Some((0, 0)),
            selected_source: 0,
            selected_pattern: 0,
            loop_on: false,
            loop_start: double(0),
            loop_end: double(0x4020_0000_0000_0000),
            playhead_beats: double(0),
            project_rev: 1,
            plan_rev: 1,
        }
    }

    /// The loop, where it is on and goes forward.
    pub fn loop_region(&self) -> (r: Option<(F64, F64)>)
        ensures
            r == if self.loop_on && self.loop_start.lt(self.loop_end) {
                Some((self.loop_start, self.loop_end))
            } else {
                None
            },
    {
        if self.loop_on && self.loop_start.lt(self.loop_end) {
            Some((self.loop_start, self.loop_end))
        } else {
            None
        }
    }

    /// Something was edited.
    pub fn edited(&mut self)
        ensures
            *final(self) == (Desk {
                project_rev: old(self).project_rev.wrapping_add(1),
                ..*old(self)
            }),
    {
        self.project_rev = self.project_rev.wrapping_add(1);
    }

    /// Whether playing has edits to take up; they then count as taken up.
    pub fn takes_up(&mut self) -> (r: bool)
        ensures
            r == (old(self).project_rev != old(self).plan_rev),
            *final(self) == (Desk { plan_rev: old(self).project_rev, ..*old(self) }),
    {
        let r: bool = self.project_rev != self.plan_rev;
        self.plan_rev = self.project_rev;
        r
    }

    /// Add a demo source and select it.
    pub fn add_demo<K: Fn(Op, Width, u64, u64) -> u64>(&mut self, c: &Calc<K>, p: &mut Project)
        requires
            c.sound(),
        ensures
            *final(self) == (Desk {
                selected_source: old(p).sources@.len() as usize,
                project_rev: old(self).project_rev.wrapping_add(1),
                ..*old(self)
            }),
            final(p).sources@.len() == old(p).sources@.len() + 1,
            forall|i: int|
                0 <= i < old(p).sources@.len() ==> final(p).sources@[i] == old(p).sources@[i],
            final(p).sources@.last().name@ == "demo saw+pattern"@,
            demo_media(c, final(p).sources@.last(), old(p).sample_rate),
            final(p).same_but_sources(*old(p)),
            old(p).wf() ==> final(p).wf(),
    {
        let s: Source = demo_source(c, "demo saw+pattern", p.sample_rate);
        self.selected_source = p.add_source(s);
        self.edited();
    }

    /// Add a track at the end.
    pub fn add_track(&mut self, p: &mut Project)
        requires
            old(p).tracks@.len() < usize::MAX,
        ensures
            *final(self) == (Desk {
                project_rev: old(self).project_rev.wrapping_add(1),
                ..*old(self)
            }),
            final(p).tracks@.len() == old(p).tracks@.len() + 1,
            forall|i: int|
                0 <= i < old(p).tracks@.len() ==> final(p).tracks@[i] == old(p).tracks@[i],
            final(p).tracks@.last().blank(
                "track "@ + text::decimal((old(p).tracks@.len() + 1) as nat),
            ),
            *final(p) == (Project { tracks: final(p).tracks, ..*old(p) }),
            old(p).wf() ==> final(p).wf(),
    {
        let name: String = numbered("track ", p.tracks.len());
        p.add_track(name.as_str());
        self.edited();
    }

    /// Move a track one place up in the list, where there is one above; it stays selected.
    pub fn raise_track(&mut self, p: &mut Project, i: usize)
        requires
            i < old(p).tracks@.len(),
        ensures
            *final(p) == (Project { tracks: final(p).tracks, ..*old(p) }),
            if i > 0 {
                &&& final(p).tracks@ == old(p).tracks@.update(i as int, old(p).tracks@[i - 1]).update(
                    i - 1,
                    old(p).tracks@[i as int],
                )
                &&& *final(self) == Desk {
                    selected_track: (i - 1) as usize,
                    project_rev: old(self).project_rev.wrapping_add(1),
                    ..*old(self)
                }
            } else {
                *final(p) == *old(p) && *final(self) == *old(self)
            },
            old(p).wf() ==> final(p).wf(),
    {
        if i > 0 {
            swap_with_next(p, i - 1);
            self.selected_track = i - 1;
            self.edited();
        }
    }

    /// Move a track one place down in the list, where there is one below; it stays selected.
    pub fn lower_track(&mut self, p: &mut Project, i: usize)
        requires
            i < old(p).tracks@.len(),
        ensures
            *final(p) == (Project { tracks: final(p).tracks, ..*old(p) }),
            if i + 1 < old(p).tracks@.len() {
                &&& final(p).tracks@ == old(p).tracks@.update(i as int, old(p).tracks@[i + 1]).update(
                    i + 1,
                    old(p).tracks@[i as int],
                )
                &&& *final(self) == Desk {
                    selected_track: (i + 1) as usize,
                    project_rev: old(self).project_rev.wrapping_add(1),
                    ..*old(self)
                }
            } else {
                *final(p) == *old(p) && *final(self) == *old(self)
            },
            old(p).wf() ==> final(p).wf(),
    {
        if i < p.tracks.len() - 1 {
            swap_with_next(p, i);
            self.selected_track = i + 1;
            self.edited();
        }
    }

    /// Add a pattern with a row for the selected source, where there is one, and select it.
    pub fn add_pattern<K: Fn(Op, Width, u64, u64) -> u64>(&mut self, c: &Calc<K>, p: &mut Project)
        requires
            c.sound(),
            old(p).patterns@.len() < usize::MAX,
        ensures
            *final(self) == (Desk {
                selected_pattern: old(p).patterns@.len() as usize,
                project_rev: old(self).project_rev.wrapping_add(1),
                ..*old(self)
            }),
            *final(p) == (Project { patterns: final(p).patterns, ..*old(p) }),
            final(p).patterns@.len() == old(p).patterns@.len() + 1,
            forall|i: int|
                0 <= i < old(p).patterns@.len() ==> final(p).patterns@[i] == old(p).patterns@[i],
            ({
                let pat = final(p).patterns@.last();
                &&& pat.name@ == "pattern "@ + text::decimal((old(p).patterns@.len() + 1) as nat)
                &&& pat.steps_per_beat == 4
                &&& pat.length_beats == double(0x4010_0000_0000_0000)
                &&& pat.rows@.len() == if old(self).selected_source < old(p).sources@.len() {
                    1int
                } else {
                    0int
                }
                &&& old(self).selected_source < old(p).sources@.len() ==> is_new_row(
                    c,
                    pat.rows@[0],
                    old(self).selected_source as int,
                    pat,
                )
            }),
            old(p).wf() ==> final(p).wf(),
    {
        let name: String = numbered("pattern ", p.patterns.len());
        let mut pat: StepPattern = StepPattern::new(name.as_str());
        if self.selected_source < p.sources.len() {
            pat.add_row(c, self.selected_source);
        }
        self.selected_pattern = p.add_pattern(pat);
        self.edited();
    }

    /// Whether there is something to make a clip of.
    pub open spec fn can_add(self, p: Project, kind: AddKind) -> bool {
        &&& p.tracks@.len() > 0
        &&& match kind {
            AddKind::Pattern => self.selected_pattern < p.patterns@.len(),
            _ => self.selected_source < p.sources@.len(),
        }
    }

    /// Whether a clip is as it is when added.
    pub open spec fn newly_added(self, clip: Clip, kind: AddKind) -> bool {
        &&& clip.wf()
        &&& clip.fresh(
            if kind == AddKind::Pattern {
                0
            } else {
                self.selected_source
            },
            self.playhead_beats,
            double(0x4010_0000_0000_0000),
        )
        &&& clip.kind == match kind {
            AddKind::Granular => ClipKind::Granular,
            AddKind::Snippet => ClipKind::Snippet,
            AddKind::Pattern => ClipKind::Pattern(self.selected_pattern),
        }
        &&& clip.grains == match kind {
            AddKind::Snippet => (GrainSettings {
                envelope: single(0x3d4c_cccd),
                pan_spread: single(0),
                ..GrainSettings::standard()
            }),
            _ => GrainSettings::standard(),
        }
    }

    /// Add a clip of four beats at the playhead, to the selected track or the last one, and
    /// select it; nothing where there is nothing to make it of.
    pub fn add_clip(&mut self, p: &mut Project, kind: AddKind)
        ensures
            if old(self).can_add(*old(p), kind) {
                let t = if old(self).selected_track < old(p).tracks@.len() {
                    old(self).selected_track as int
                } else {
                    old(p).tracks@.len() - 1
                };
                let n = old(p).tracks@[t].clips@.len();
                &&& clip_placed(*old(p), *final(p), t, final(p).tracks@[t].clips@[n as int])
                &&& old(self).newly_added(final(p).tracks@[t].clips@[n as int], kind)
                &&& *final(self) == Desk {
                    selected_clip: Some((t as usize, n as usize)),
                    project_rev: old(self).project_rev.wrapping_add(1),
                    ..*old(self)
                }
            } else {
                *final(p) == *old(p) && *final(self) == *old(self)
            },
            old(p).wf() ==> final(p).wf(),
    {
        let ghost before = *p;
        if p.tracks.len() == 0 {
            return;
        }
        let t: usize = if self.selected_track < p.tracks.len() {
            self.selected_track
        } else {
            p.tracks.len() - 1
        };
        let start: F64 = self.playhead_beats;
        let clip: Clip = match kind {
            AddKind::Granular => {
                if self.selected_source >= p.sources.len() {
                    return;
                }
                Clip::new(self.selected_source, start, double(0x4010_0000_0000_0000))
            },
            AddKind::Snippet => {
                if self.selected_source >= p.sources.len() {
                    return;
                }
                Clip::new_snippet(self.selected_source, start, double(0x4010_0000_0000_0000))
            },
            AddKind::Pattern => {
                if self.selected_pattern >= p.patterns.len() {
                    return;
                }
                Clip::new_pattern(self.selected_pattern, start, double(0x4010_0000_0000_0000))
            },
        };
        let n: usize = p.tracks[t].clips.len();
        p.tracks[t].clips.push(clip);
        proof {
            if before.wf() {
                assert(before.tracks@[t as int].wf());
                assert forall|k: int| 0 <= k < p.tracks@[t as int].clips@.len() implies (
                #[trigger] p.tracks@[t as int].clips@[k]).wf() by {
                    if k < n {
                        assert(before.tracks@[t as int].clips@[k].wf());
                    }
                }
            }
            lemma_track_changed(before, *p, t as int);
        }
        self.selected_clip = Some((t, n));
        self.edited();
    }

    /// What a press on the timeline did: on a clip, it is selected with its track; beside all
    /// clips, the playhead moves to the grid there. Whether the playhead moved.
    pub fn press<K: Fn(Op, Width, u64, u64) -> u64>(&mut self, c: &Calc<K>, hit: Option<(usize, usize)>, beat: F64, quantize: F64) -> (r: bool)
        requires
            c.sound(),
        ensures
            r == (hit is None),
            *final(self) == match hit {
                Some((t, i)) => Desk {
                    selected_clip: Some((t, i)),
                    selected_track: t,
                    ..*old(self)
                },
                None => Desk {
                    selected_clip: None,
                    playhead_beats: snapped(c, beat, quantize).max(double(0)),
                    ..*old(self)
                },
            },
    {
        match hit {
            Some((t, i)) => {
                self.selected_clip = Some((t, i));
                self.selected_track = t;
                false
            },
            None => {
                self.playhead_beats = snapped(c, beat, quantize).max(double(0));
                self.selected_clip = None;
                true
            },
        }
    }

    /// Move the selected clip by some beats, not past the start.
    pub fn drag<K: Fn(Op, Width, u64, u64) -> u64>(&self, c: &Calc<K>, p: &mut Project, delta: F64)
        requires
            c.sound(),
        ensures
            if holds(*old(p), self.selected_clip) {
                &&& only_clip(
                    *old(p),
                    *final(p),
                    (self.selected_clip->0).0 as int,
                    (self.selected_clip->0).1 as int,
                )
                &&& held(*final(p), self.selected_clip) == Clip {
                    start_beat: held(*old(p), self.selected_clip).start_beat.add(c, delta).max(
                        double(0),
                    ),
                    ..held(*old(p), self.selected_clip)
                }
            } else {
                *final(p) == *old(p)
            },
            old(p).wf() ==> final(p).wf(),
    {
        let ghost before = *p;
        if let Some((t, i)) = self.selected_clip {
            if t < p.tracks.len() && i < p.tracks[t].clips.len() {
                let at: F64 = p.tracks[t].clips[i].start_beat.add(c, delta).max(double(0));
                p.tracks[t].clips[i].start_beat = at;
                proof {
                    lemma_clip_changed(before, *p, t as int, i as int);
                }
            }
        }
    }

    /// Let go of the selected clip: it snaps to the grid.
    pub fn release<K: Fn(Op, Width, u64, u64) -> u64>(&mut self, c: &Calc<K>, p: &mut Project, quantize: F64)
        requires
            c.sound(),
        ensures
            if holds(*old(p), old(self).selected_clip) {
                let at = old(self).selected_clip;
                &&& only_clip(*old(p), *final(p), (at->0).0 as int, (at->0).1 as int)
                &&& held(*final(p), at) == Clip {
                    start_beat: snapped(c, held(*old(p), at).start_beat, quantize),
                    ..held(*old(p), at)
                }
            } else {
                *final(p) == *old(p)
            },
            *final(self) == if old(self).selected_clip is Some {
                Desk { project_rev: old(self).project_rev.wrapping_add(1), ..*old(self) }
            } else {
                *old(self)
            },
            old(p).wf() ==> final(p).wf(),
    {
        let ghost before = *p;
        if let Some((t, i)) = self.selected_clip {
            if t < p.tracks.len() && i < p.tracks[t].clips.len() {
                let at: F64 = snapped(c, p.tracks[t].clips[i].start_beat, quantize);
                p.tracks[t].clips[i].start_beat = at;
                proof {
                    lemma_clip_changed(before, *p, t as int, i as int);
                }
            }
            self.edited();
        }
    }

    /// Delete the selected clip.
    pub fn delete_clip(&mut self, p: &mut Project)
        requires
            holds(*old(p), old(self).selected_clip),
        ensures
            ({
                let (t, i) = old(self).selected_clip->0;
                &&& only_track(*old(p), *final(p), t as int)
                &&& same_track_but_clips(final(p).tracks@[t as int], old(p).tracks@[t as int])
                &&& final(p).tracks@[t as int].clips@ == old(p).tracks@[t as int].clips@.remove(
                    i as int,
                )
            }),
            *final(self) == (Desk {
                selected_clip: None,
                project_rev: old(self).project_rev.wrapping_add(1),
                ..*old(self)
            }),
            old(p).wf() ==> final(p).wf(),
    {
        let ghost before = *p;
        if let Some((t, i)) = self.selected_clip {
            p.tracks[t].clips.remove(i);
            proof {
                if before.wf() {
                    assert(before.tracks@[t as int].wf());
                    assert forall|k: int| 0 <= k < p.tracks@[t as int].clips@.len() implies (
                    #[trigger] p.tracks@[t as int].clips@[k]).wf() by {
                        let j = if k < i {
                            k
                        } else {
                            k + 1
                        };
                        assert(before.tracks@[t as int].clips@[j].wf());
                    }
                }
                lemma_track_changed(before, *p, t as int);
            }
        }
        self.selected_clip = None;
        self.edited();
    }

    /// The pattern to edit: that of the selected clip, or the selected one.
    pub open spec fn edited_pattern(self, p: Project) -> usize {
        if holds(p, self.selected_clip) && held(p, self.selected_clip).kind is Pattern {
            held(p, self.selected_clip).kind->Pattern_0
        } else {
            self.selected_pattern
        }
    }

    /// The pattern of the selected pattern clip, or the selected pattern.
    pub fn pattern_to_edit(&self, p: &Project) -> (r: usize)
        ensures
            r == self.edited_pattern(*p),
    {
        if let Some((t, i)) = self.selected_clip {
            if t < p.tracks.len() && i < p.tracks[t].clips.len() {
                if let ClipKind::Pattern(pid) = p.tracks[t].clips[i].kind {
                    return pid;
                }
            }
        }
        self.selected_pattern
    }

    /// Turn a step over, where it is there.
    pub fn toggle_step(&mut self, p: &mut Project, pid: usize, row: usize, step: usize)
        ensures
            if pid < old(p).patterns@.len() && row < old(p).patterns@[pid as int].rows@.len() && step
                < old(p).patterns@[pid as int].rows@[row as int].steps@.len() {
                let was = old(p).patterns@[pid as int].rows@[row as int];
                let now = final(p).patterns@[pid as int].rows@[row as int];
                &&& only_row(*old(p), *final(p), pid as int, row as int)
                &&& now == SeqRow { steps: now.steps, ..was }
                &&& now.steps@ == was.steps@.update(
                    step as int,
                    Step { on: !was.steps@[step as int].on, ..was.steps@[step as int] },
                )
                &&& final(self).project_rev == old(self).project_rev.wrapping_add(1)
            } else {
                *final(p) == *old(p) && final(self).project_rev == old(self).project_rev
            },
            *final(self) == (Desk { project_rev: final(self).project_rev, ..*old(self) }),
            old(p).wf() ==> final(p).wf(),
    {
        let ghost before = *p;
        if pid < p.patterns.len() && row < p.patterns[pid].rows.len() && step
            < p.patterns[pid].rows[row].steps.len() {
            let mut s: Step = p.patterns[pid].rows[row].steps[step];
            s.on = !s.on;
            p.patterns[pid].rows[row].steps.set(step, s);
            proof {
                assert(only_row(before, *p, pid as int, row as int));
                lemma_row_changed(before, *p, pid as int, row as int);
            }
            self.edited();
        }
    }

    /// Take a row out of a pattern.
    pub fn remove_row(&mut self, p: &mut Project, pid: usize, row: usize)
        requires
            pid < old(p).patterns@.len(),
            row < old(p).patterns@[pid as int].rows@.len(),
        ensures
            only_pattern(*old(p), *final(p), pid as int),
            final(p).patterns@[pid as int] == (StepPattern {
                rows: final(p).patterns@[pid as int].rows,
                ..old(p).patterns@[pid as int]
            }),
            final(p).patterns@[pid as int].rows@ == old(p).patterns@[pid as int].rows@.remove(
                row as int,
            ),
            *final(self) == (Desk {
                project_rev: old(self).project_rev.wrapping_add(1),
                ..*old(self)
            }),
            old(p).wf() ==> final(p).wf(),
    {
        let ghost before = *p;
        p.patterns[pid].rows.remove(row);
        proof {
            if before.wf() {
                assert(before.patterns@[pid as int].wf());
                assert forall|k: int| 0 <= k < p.patterns@[pid as int].rows@.len() implies (
                #[trigger] p.patterns@[pid as int].rows@[k]).wf() by {
                    let j = if k < row {
                        k
                    } else {
                        k + 1
                    };
                    assert(before.patterns@[pid as int].rows@[j].wf());
                }
            }
            lemma_pattern_changed(before, *p, pid as int);
        }
        self.edited();
    }

    /// Add a row for the selected source, or the last one, where there is any.
    pub fn add_row<K: Fn(Op, Width, u64, u64) -> u64>(&mut self, c: &Calc<K>, p: &mut Project, pid: usize)
        requires
            c.sound(),
            pid < old(p).patterns@.len(),
        ensures
            if old(p).sources@.len() > 0 {
                let was = old(p).patterns@[pid as int];
                let now = final(p).patterns@[pid as int];
                &&& only_pattern(*old(p), *final(p), pid as int)
                &&& now == StepPattern { rows: now.rows, ..was }
                &&& now.rows@.len() == was.rows@.len() + 1
                &&& forall|i: int| 0 <= i < was.rows@.len() ==> now.rows@[i] == was.rows@[i]
                &&& is_new_row(
                    c,
                    now.rows@.last(),
                    if old(self).selected_source < old(p).sources@.len() {
                        old(self).selected_source as int
                    } else {
                        old(p).sources@.len() - 1
                    },
                    was,
                )
                &&& final(self).project_rev == old(self).project_rev.wrapping_add(1)
            } else {
                *final(p) == *old(p) && final(self).project_rev == old(self).project_rev
            },
            *final(self) == (Desk { project_rev: final(self).project_rev, ..*old(self) }),
            old(p).wf() ==> final(p).wf(),
    {
        let ghost before = *p;
        let n: usize = p.sources.len();
        if n > 0 {
            let s: usize = if self.selected_source < n {
                self.selected_source
            } else {
                n - 1
            };
            p.patterns[pid].add_row(c, s);
            proof {
                if before.wf() {
                    assert(before.patterns@[pid as int].wf());
                    assert forall|k: int| 0 <= k < p.patterns@[pid as int].rows@.len() implies (
                    #[trigger] p.patterns@[pid as int].rows@[k]).wf() by {
                        if k < before.patterns@[pid as int].rows@.len() {
                            assert(before.patterns@[pid as int].rows@[k].wf());
                        }
                    }
                }
                lemma_pattern_changed(before, *p, pid as int);
            }
            self.edited();
        }
    }
}

fn swap_with_next(p: &mut Project, i: usize)
    requires
        i + 1 < old(p).tracks@.len(),
    ensures
        *final(p) == (Project { tracks: final(p).tracks, ..*old(p) }),
        final(p).tracks@ == old(p).tracks@.update(i as int, old(p).tracks@[i + 1]).update(
            i + 1,
            old(p).tracks@[i as int],
        ),
        old(p).wf() ==> final(p).wf(),
{
    let ghost before = *p;
    let n: usize = p.tracks.len();
    assert(i + 1 < n);
    let t: Track = p.tracks.remove(i);
    p.tracks.insert(i + 1, t);
    proof {
        assert(p.tracks@ =~= before.tracks@.update(i as int, before.tracks@[i + 1]).update(
            i + 1,
            before.tracks@[i as int],
        ));
        if before.wf() {
            assert forall|k: int| 0 <= k < p.tracks@.len() implies (
            #[trigger] p.tracks@[k]).wf() by {
                let j = if k == i {
                    i + 1
                } else if k == i + 1 {
                    i as int
                } else {
                    k
                };
                assert(before.tracks@[j].wf());
            }
        }
    }
}

// ----------------------------------------------------------------- timeline

/// The top of track `t` in the timeline.
#[verifier::allow_in_spec]
pub fn track_top<K: Fn(Op, Width, u64, u64) -> u64>(c: &Calc<K>, origin: F32, ruler: F32, height: F32, t: u64) -> F32
    requires
        c.sound(),
    returns
        (origin.add(c, ruler).add(c, F32::of_count(c, t).mul(c, height))),
{
    origin.add(c, ruler).add(c, F32::of_count(c, t).mul(c, height))
}

/// A timeline's measures: where it starts, and how high its ruler and its tracks are.
#[derive(Clone, Copy, Debug)]
pub struct Rows {
    pub origin: F32,
    pub ruler: F32,
    pub height: F32,
}

/// Whether a press at a beat and a height is on a clip of track `t`.
pub open spec fn hits_clip<K: Fn(Op, Width, u64, u64) -> u64>(c: &Calc<K>, rows: Rows, t: int, clip: Clip, beat: F64, y: F32) -> bool {
    let top = track_top(c, rows.origin, rows.ruler, rows.height, t as u64);
    top.le(y) && y.lt(top.add(c, rows.height)) && clip.start_beat.le(beat) && beat.lt(clip.ends(c))
}

/// The last clip of the first `n` clips of track `t` that a press is on.
pub open spec fn hit_in<K: Fn(Op, Width, u64, u64) -> u64>(c: &Calc<K>, rows: Rows, t: int, clips: Seq<Clip>, beat: F64, y: F32, n: int) -> Option<int>
    decreases n,
{
    if n <= 0 {
        None
    } else if hits_clip(c, rows, t, clips[n - 1], beat, y) {
        Some(n - 1)
    } else {
        hit_in(c, rows, t, clips, beat, y, n - 1)
    }
}

/// The clip that a press is on, among the first `n` tracks: the last one drawn.
pub open spec fn hit_on<K: Fn(Op, Width, u64, u64) -> u64>(c: &Calc<K>, rows: Rows, tracks: Seq<Track>, beat: F64, y: F32, n: int) -> Option<(int, int)>
    decreases n,
{
    if n <= 0 {
        None
    } else {
        let clips = tracks[n - 1].clips@;
        match hit_in(c, rows, n - 1, clips, beat, y, clips.len() as int) {
            Some(i) => Some((n - 1, i)),
            None => hit_on(c, rows, tracks, beat, y, n - 1),
        }
    }
}

/// The clip that a press on the timeline is on.
pub fn hit_clip<K: Fn(Op, Width, u64, u64) -> u64>(c: &Calc<K>, p: &Project, rows: Rows, beat: F64, y: F32) -> (r: Option<(usize, usize)>)
    requires
        c.sound(),
    ensures
        match hit_on(c, rows, p.tracks@, beat, y, p.tracks@.len() as int) {
            Some((t, i)) => r is Some && (r->0).0 == t && (r->0).1 == i && holds(*p, r),
            None => r is None,
        },
{
    let mut n: usize = p.tracks.len();
    while n > 0
        invariant
            c.sound(),
            n <= p.tracks@.len(),
            hit_on(c, rows, p.tracks@, beat, y, p.tracks@.len() as int) == hit_on(
                c,
                rows,
                p.tracks@,
                beat,
                y,
                n as int,
            ),
        decreases n,
    {
        let t: usize = n - 1;
        let top: F32 = track_top(c, rows.origin, rows.ruler, rows.height, t as u64);
        let inside: bool = top.le(y) && y.lt(top.add(c, rows.height));
        let mut m: usize = p.tracks[t].clips.len();
        while m > 0
            invariant
                c.sound(),
                t + 1 == n,
                n <= p.tracks@.len(),
                m <= p.tracks@[t as int].clips@.len(),
                top == track_top(c, rows.origin, rows.ruler, rows.height, t as u64),
                inside == (top.le(y) && y.lt(top.add(c, rows.height))),
                hit_on(c, rows, p.tracks@, beat, y, p.tracks@.len() as int) == hit_on(
                    c,
                    rows,
                    p.tracks@,
                    beat,
                    y,
                    n as int,
                ),
                hit_in(
                    c,
                    rows,
                    t as int,
                    p.tracks@[t as int].clips@,
                    beat,
                    y,
                    p.tracks@[t as int].clips@.len() as int,
                ) == hit_in(c, rows, t as int, p.tracks@[t as int].clips@, beat, y, m as int),
            decreases m,
        {
            let clip: &Clip = &p.tracks[t].clips[m - 1];
            if inside && clip.start_beat.le(beat) && beat.lt(clip.end_beat(c)) {
                return Some((t, m - 1));
            }
            m -= 1;
        }
        n -= 1;
    }
    None
}

// ---------------------------------------------------------------- inspector

/// Quantize a clip's pitches or not; on starts with A minor pentatonic.
pub fn set_key_on(clip: &mut Clip, on: bool)
    ensures
        *final(clip) == (Clip {
            key: if on {
                Some(Key { root: 9, scale: ScaleKind::MinorPentatonic })
            } else {
                None
            },
            ..*old(clip)
        }),
{
    clip.key = if on {
        Some(Key::new(9, ScaleKind::MinorPentatonic))
    } else {
        None
    };
}

/// Add a filter to a clip: a low pass to start with.
pub fn add_filter(clip: &mut Clip)
    ensures
        *final(clip) == (Clip { audio_filters: final(clip).audio_filters, ..*old(clip) }),
        final(clip).audio_filters@ == old(clip).audio_filters@.push(
            (FilterSpec { kind: FilterKind::LowPass, freq: single(0x44fa_0000), q: single(0x3f34_fdf4) }),
        ),
{
    clip.audio_filters.push(FilterSpec { kind: FilterKind::LowPass, freq: single(0x44fa_0000), q: single(0x3f34_fdf4) });
}

/// Take a filter off a clip.
pub fn remove_filter(clip: &mut Clip, i: usize)
    requires
        i < old(clip).audio_filters@.len(),
    ensures
        *final(clip) == (Clip { audio_filters: final(clip).audio_filters, ..*old(clip) }),
        final(clip).audio_filters@ == old(clip).audio_filters@.remove(i as int),
{
    clip.audio_filters.remove(i);
}

/// What a color filter's switch shows: 0 off, 1 keep, 2 remove.
pub fn color_mode(f: &Option<ColorFilter>) -> (r: i32)
    ensures
        r == match *f {
            None => 0int,
            Some(f) => if f.mode == ColorFilterMode::Keep {
                1int
            } else {
                2int
            },
        },
{
    match f {
        None => 0,
        Some(f) => match f.mode {
            ColorFilterMode::Keep => 1,
            ColorFilterMode::Remove => 2,
        },
    }
}

/// The color filter that a switch starts with.
pub fn color_filter_of(mode: i32) -> (r: Option<ColorFilter>)
    ensures
        r == if mode == 1 {
            Some(ColorFilter::band(ColorFilterMode::Keep, single(0x42f0_0000), single(0x42b4_0000)))
        } else if mode == 2 {
            Some(ColorFilter::band(ColorFilterMode::Remove, single(0x42f0_0000), single(0x42b4_0000)))
        } else {
            None
        },
{
    if mode == 1 {
        Some(ColorFilter::keep(single(0x42f0_0000), single(0x42b4_0000)))
    } else if mode == 2 {
        Some(ColorFilter::remove(single(0x42f0_0000), single(0x42b4_0000)))
    } else {
        None
    }
}

/// Add an effect to a chain by name; whether there is one of that name.
pub fn add_effect(chain: &mut Vec<AvEffect>, name: &str) -> (r: bool)
    ensures
        match effect_named(text::lowered(name@)) {
            Some(kind) => r && final(chain)@ == old(chain)@.push(
                (AvEffect { kind, audio: single(0x3f80_0000), video: single(0x3f80_0000) }),
            ),
            None => !r && final(chain)@ == old(chain)@,
        },
{
    match EffectKind::parse(name) {
        Some(kind) => {
            chain.push(AvEffect::new(kind));
            true
        },
        None => false,
    }
}

/// Take an effect off a chain.
pub fn remove_effect(chain: &mut Vec<AvEffect>, i: usize)
    requires
        i < old(chain)@.len(),
    ensures
        final(chain)@ == old(chain)@.remove(i as int),
{
    chain.remove(i);
}

// --------------------------------------------------------------------- laws

/// Moving a track up and then down again puts all tracks back.
pub proof fn law_moving_up_and_down(tracks: Seq<Track>, i: int)
    requires
        0 < i < tracks.len(),
    ensures
        ({
            let up = tracks.update(i, tracks[i - 1]).update(i - 1, tracks[i]);
            up.update(i - 1, up[i]).update(i, up[i - 1]) == tracks
        }),
{
    let up = tracks.update(i, tracks[i - 1]).update(i - 1, tracks[i]);
    assert(up.update(i - 1, up[i]).update(i, up[i - 1]) =~= tracks);
}

/// A step turned over twice is as it was.
pub proof fn law_toggling_twice(s: Step)
    ensures
        ({
            let once = Step { on: !s.on, ..s };
            Step { on: !once.on, ..once } == s
        }),
{
}

/// A press is on a clip exactly where there is a clip under it.
pub proof fn law_presses_find_clips<K: Fn(Op, Width, u64, u64) -> u64>(c: &Calc<K>, rows: Rows, tracks: Seq<Track>, beat: F64, y: F32)
    ensures
        hit_on(c, rows, tracks, beat, y, tracks.len() as int) is Some <==> exists|t: int, i: int|
            0 <= t < tracks.len() && 0 <= i < tracks[t].clips@.len() && hits_clip(
                c,
                rows,
                t,
                #[trigger] tracks[t].clips@[i],
                beat,
                y,
            ),
{
    lemma_hit_on(c, rows, tracks, beat, y, tracks.len() as int);
}

proof fn lemma_hit_in<K: Fn(Op, Width, u64, u64) -> u64>(c: &Calc<K>, rows: Rows, t: int, clips: Seq<Clip>, beat: F64, y: F32, n: int)
    requires
        n <= clips.len(),
    ensures
        hit_in(c, rows, t, clips, beat, y, n) is Some ==> {
            let i = hit_in(c, rows, t, clips, beat, y, n)->0;
            0 <= i < n && hits_clip(c, rows, t, clips[i], beat, y)
        },
        hit_in(c, rows, t, clips, beat, y, n) is None ==> forall|i: int|
            0 <= i < n ==> !hits_clip(c, rows, t, #[trigger] clips[i], beat, y),
    decreases n,
{
    if n > 0 {
        lemma_hit_in(c, rows, t, clips, beat, y, n - 1);
    }
}

proof fn lemma_hit_on<K: Fn(Op, Width, u64, u64) -> u64>(c: &Calc<K>, rows: Rows, tracks: Seq<Track>, beat: F64, y: F32, n: int)
    requires
        n <= tracks.len(),
    ensures
        hit_on(c, rows, tracks, beat, y, n) is Some <==> exists|t: int, i: int|
            0 <= t < n && 0 <= i < tracks[t].clips@.len() && hits_clip(
                c,
                rows,
                t,
                #[trigger] tracks[t].clips@[i],
                beat,
                y,
            ),
    decreases n,
{
    if n > 0 {
        lemma_hit_on(c, rows, tracks, beat, y, n - 1);
        let clips = tracks[n - 1].clips@;
        lemma_hit_in(c, rows, n - 1, clips, beat, y, clips.len() as int);
        if hit_in(c, rows, n - 1, clips, beat, y, clips.len() as int) is Some {
            let i = hit_in(c, rows, n - 1, clips, beat, y, clips.len() as int)->0;
            assert(hits_clip(c, rows, n - 1, tracks[n - 1].clips@[i], beat, y));
        }
    }
}

} // verus!
