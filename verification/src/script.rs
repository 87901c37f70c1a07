//! The commands that scripts drive the engine with. Each takes the project, checks
//! what it was given, and changes one thing or says what is wrong.
use crate::audio::{samples_in, sine_sample, stereo_rms, AudioClip, StereoBuffer};
use crate::auto::{param_range, range_of, with_point, AutoPoint, AutomationLane};
use crate::calc::{Calc, Op, Width};
use crate::dsp::{filter_named, FilterKind, FilterSpec};
use crate::figures::{fixed_double, fixed_single, push_double, push_single};
use crate::fx::{effect_named, effect_set, AvEffect, EffectKind};
use crate::grain::{grain_set, GrainSettings};
use crate::music::{note_class, scale_named, Key};
use crate::num::{double, single, F32, F64};
use crate::seq::{regridded, resized, row_preset, RowMode, SeqRow, Step, StepPattern};
use crate::synth::{
    fm_name, fm_source, fm_tone, noise_source, noise_tone, synth_media,
};
use crate::text;
use crate::timeline::{
    demo_media, demo_source, Clip, ClipKind, ClipTransform, Project, Source, Track,
};
use crate::video::{link_set, AvLink, ColorFilter, ColorFilterMode, VisualGrainStyle};
use std::sync::Arc;
use vstd::prelude::*;

verus! {

/// Handle to a clip placed by a script.
#[derive(Clone, Copy, Debug, PartialEq, Eq, Structural)]
pub struct ClipRef {
    pub track: i64,
    pub index: i64,
}

/// Whether a number names one of `n` things.
pub open spec fn names(i: i64, n: nat) -> bool {
    0 <= i < n
}

fn place(i: i64, n: usize) -> (r: Option<usize>)
    ensures
        r is Some <==> names(i, n as nat),
        r is Some ==> r->0 == i,
{
    if 0 <= i && (i as u64) < n as u64 {
        Some(i as usize)
    } else {
        None
    }
}

fn missing(what: &str, i: i64) -> (r: String)
    ensures
        r@ == what@ + text::signed_decimal(i as int),
{
    let mut e: String = what.to_owned();
    text::push_signed(&mut e, i);
    e
}

fn quoted(what: &str, name: &str) -> (r: String)
    ensures
        r@ == what@ + name@ + "'"@,
{
    text::join3(what, name, "'")
}

// ------------------------------------------------------------- what changes

/// Whether two tracks are alike but for their clips.
pub open spec fn same_track_but_clips(a: Track, b: Track) -> bool {
    a == Track { clips: a.clips, ..b }
}

/// Whether two projects are alike but for track `t`.
pub open spec fn only_track(before: Project, after: Project, t: int) -> bool {
    &&& after == Project { tracks: after.tracks, ..before }
    &&& after.tracks@.len() == before.tracks@.len()
    &&& forall|j: int|
        0 <= j < before.tracks@.len() && j != t ==> #[trigger] after.tracks@[j] == before.tracks@[j]
}

/// Whether two projects are alike but for clip `i` of track `t`.
pub open spec fn only_clip(before: Project, after: Project, t: int, i: int) -> bool {
    &&& only_track(before, after, t)
    &&& same_track_but_clips(after.tracks@[t], before.tracks@[t])
    &&& after.tracks@[t].clips@.len() == before.tracks@[t].clips@.len()
    &&& forall|k: int|
        0 <= k < before.tracks@[t].clips@.len() && k != i ==> #[trigger] after.tracks@[t].clips@[k]
            == before.tracks@[t].clips@[k]
}

/// Whether two projects are alike but for row `i` of pattern `p`.
pub open spec fn only_row(before: Project, after: Project, p: int, i: int) -> bool {
    &&& after == Project { patterns: after.patterns, ..before }
    &&& after.patterns@.len() == before.patterns@.len()
    &&& forall|j: int|
        0 <= j < before.patterns@.len() && j != p ==> #[trigger] after.patterns@[j]
            == before.patterns@[j]
    &&& after.patterns@[p] == StepPattern { rows: after.patterns@[p].rows, ..before.patterns@[p] }
    &&& after.patterns@[p].rows@.len() == before.patterns@[p].rows@.len()
    &&& forall|k: int|
        0 <= k < before.patterns@[p].rows@.len() && k != i ==> #[trigger] after.patterns@[p].rows@[k]
            == before.patterns@[p].rows@[k]
}

/// Whether a handle names a clip of a project.
pub open spec fn has_clip(p: Project, c: ClipRef) -> bool {
    names(c.track, p.tracks@.len()) && names(c.index, p.tracks@[c.track as int].clips@.len())
}

/// The clip that a handle names.
pub open spec fn the_clip(p: Project, c: ClipRef) -> Clip {
    p.tracks@[c.track as int].clips@[c.index as int]
}

/// What is said of a handle that names no clip.
pub open spec fn no_clip(p: Project, c: ClipRef) -> Seq<char> {
    if !names(c.track, p.tracks@.len()) {
        "no track "@ + text::signed_decimal(c.track as int)
    } else {
        "no clip "@ + text::signed_decimal(c.index as int)
    }
}

/// Whether a pattern and row are there.
pub open spec fn has_row(p: Project, pid: i64, row: i64) -> bool {
    names(pid, p.patterns@.len()) && names(row, p.patterns@[pid as int].rows@.len())
}

/// The row of a pattern.
pub open spec fn the_row(p: Project, pid: i64, row: i64) -> SeqRow {
    p.patterns@[pid as int].rows@[row as int]
}

/// What is said where a pattern or row is not there.
pub open spec fn no_row(pid: i64, row: i64) -> Seq<char> {
    "no pattern "@ + text::signed_decimal(pid as int) + " row "@ + text::signed_decimal(row as int)
}

fn find_clip(p: &Project, c: ClipRef) -> (r: Result<(usize, usize), String>)
    ensures
        r is Ok <==> has_clip(*p, c),
        r is Ok ==> (r->Ok_0).0 == c.track && (r->Ok_0).1 == c.index,
        r is Err ==> r->Err_0@ == no_clip(*p, c),
{
    match place(c.track, p.tracks.len()) {
        None => Err(missing("no track ", c.track)),
        Some(t) => match place(c.index, p.tracks[t].clips.len()) {
            None => Err(missing("no clip ", c.index)),
            Some(i) => Ok((t, i)),
        },
    }
}

fn find_row(p: &Project, pid: i64, row: i64) -> (r: Result<(usize, usize), String>)
    ensures
        r is Ok <==> has_row(*p, pid, row),
        r is Ok ==> (r->Ok_0).0 == pid && (r->Ok_0).1 == row,
        r is Err ==> r->Err_0@ == no_row(pid, row),
{
    if let Some(k) = place(pid, p.patterns.len()) {
        if let Some(i) = place(row, p.patterns[k].rows.len()) {
            return Ok((k, i));
        }
    }
    let mut e: String = missing("no pattern ", pid);
    e.append(" row ");
    text::push_signed(&mut e, row);
    Err(e)
}

proof fn lemma_clip_wf(before: Project, after: Project, t: int, i: int)
    requires
        before.wf(),
        0 <= t < before.tracks@.len(),
        0 <= i < before.tracks@[t].clips@.len(),
        only_clip(before, after, t, i),
        after.tracks@[t].clips@[i].wf(),
    ensures
        after.wf(),
{
    assert(before.tracks@[t].wf());
    assert forall|k: int| 0 <= k < after.tracks@[t].clips@.len() implies (
    #[trigger] after.tracks@[t].clips@[k]).wf() by {
        if k != i {
            assert(before.tracks@[t].clips@[k].wf());
        }
    }
    lemma_track_wf(before, after, t);
}

proof fn lemma_track_wf(before: Project, after: Project, t: int)
    requires
        before.wf(),
        0 <= t < before.tracks@.len(),
        only_track(before, after, t),
        after.tracks@[t].wf(),
    ensures
        after.wf(),
{
    assert forall|k: int| 0 <= k < after.tracks@.len() implies (#[trigger] after.tracks@[k]).wf() by {
        if k != t {
            assert(before.tracks@[k].wf());
        }
    }
}

proof fn lemma_row_wf(before: Project, after: Project, p: int, i: int)
    requires
        before.wf(),
        0 <= p < before.patterns@.len(),
        0 <= i < before.patterns@[p].rows@.len(),
        only_row(before, after, p, i),
        after.patterns@[p].rows@[i].wf(),
    ensures
        after.wf(),
{
    assert(before.patterns@[p].wf());
    assert forall|k: int| 0 <= k < after.patterns@[p].rows@.len() implies (
    #[trigger] after.patterns@[p].rows@[k]).wf() by {
        if k != i {
            assert(before.patterns@[p].rows@[k].wf());
        }
    }
    assert forall|k: int| 0 <= k < after.patterns@.len() implies (
    #[trigger] after.patterns@[k]).wf() by {
        if k != p {
            assert(before.patterns@[k].wf());
        }
    }
}

// ------------------------------------------------------------------ project

/// Set the tempo, within 20..=300.
pub fn set_bpm(p: &mut Project, bpm: F64)
    ensures
        *final(p) == (Project { bpm: bpm.limit(double(0x4034_0000_0000_0000), double(0x4072_c000_0000_0000)), ..*old(p) }),
        old(p).wf() ==> final(p).wf(),
{
    p.bpm = bpm.limit(double(0x4034_0000_0000_0000), double(0x4072_c000_0000_0000));
}

/// A canvas side: even, within 16..=4096.
pub open spec fn canvas_side(n: i64) -> int {
    let m = if n < 16 {
        16int
    } else if n > 4096 {
        4096
    } else {
        n as int
    };
    m - m % 2
}

fn side(n: i64) -> (r: u32)
    ensures
        r == canvas_side(n),
        16 <= r <= 4096,
{
    let m: u32 = if n < 16 {
        16
    } else if n > 4096 {
        4096
    } else {
        n as u32
    };
    m - m % 2
}

/// Set the output canvas: even sides within 16..=4096, 1 to 60 frames a second.
pub fn set_canvas<K: Fn(Op, Width, u64, u64) -> u64>(c: &Calc<K>, p: &mut Project, w: i64, h: i64, fps: F64)
    requires
        c.sound(),
    ensures
        *final(p) == (Project {
            width: canvas_side(w) as u32,
            height: canvas_side(h) as u32,
            fps: fps.limit(double(0x3ff0_0000_0000_0000), double(0x404e_0000_0000_0000)).to_f32(c),
            ..*old(p)
        }),
        old(p).wf() ==> final(p).wf(),
{
    let (a, b): (u32, u32) = (side(w), side(h));
    assert(a * b * 4 <= u32::MAX) by (nonlinear_arith)
        requires
            a <= 4096,
            b <= 4096,
    ;
    p.width = a;
    p.height = b;
    p.fps = fps.limit(double(0x3ff0_0000_0000_0000), double(0x404e_0000_0000_0000)).to_f32(c);
}

/// Set the snap grid, beats.
pub fn set_quantize(p: &mut Project, div: F64)
    ensures
        *final(p) == (Project { quantize: div.limit(double(0x3fb0_0000_0000_0000), double(0x4010_0000_0000_0000)), ..*old(p) }),
        old(p).wf() ==> final(p).wf(),
{
    p.quantize = div.limit(double(0x3fb0_0000_0000_0000), double(0x4010_0000_0000_0000));
}

// ------------------------------------------------------------------ sources

/// Add a source; its number.
pub fn add_source(p: &mut Project, source: Source) -> (r: i64)
    requires
        source.wf(),
        old(p).sources@.len() <= i64::MAX,
    ensures
        r == old(p).sources@.len(),
        final(p).sources@ == old(p).sources@.push(source),
        final(p).same_but_sources(*old(p)),
        old(p).wf() ==> final(p).wf(),
{
    let ghost before = *p;
    let i: usize = p.add_source(source);
    proof {
        if before.wf() {
            assert forall|k: int| 0 <= k < p.sources@.len() implies (
            #[trigger] p.sources@[k]).wf() by {
                if k < before.sources@.len() {
                    assert(before.sources@[k].wf());
                }
            }
        }
    }
    i as i64
}

/// Add the procedural demo source; its number.
pub fn add_demo_source<K: Fn(Op, Width, u64, u64) -> u64>(c: &Calc<K>, p: &mut Project) -> (r: i64)
    requires
        c.sound(),
        old(p).sources@.len() <= i64::MAX,
    ensures
        r == old(p).sources@.len(),
        final(p).sources@.len() == r + 1,
        forall|i: int| 0 <= i < r ==> final(p).sources@[i] == old(p).sources@[i],
        final(p).sources@[r as int].name@ == "demo saw+pattern"@,
        demo_media(c, final(p).sources@[r as int], old(p).sample_rate),
        final(p).same_but_sources(*old(p)),
        old(p).wf() ==> final(p).wf(),
{
    let s: Source = demo_source(c, "demo saw+pattern", p.sample_rate);
    add_source(p, s)
}

/// How long a source lasts, seconds; zero where there is none such.
pub fn source_secs<K: Fn(Op, Width, u64, u64) -> u64>(c: &Calc<K>, p: &Project, source: i64) -> (r: F64)
    requires
        c.sound(),
    ensures
        r == if names(source, p.sources@.len()) {
            p.sources@[source as int].lasts(c)
        } else {
            double(0)
        },
{
    match place(source, p.sources.len()) {
        Some(i) => p.sources[i].duration(c),
        None => double(0),
    }
}

/// The fundamental of a source, Hz; zero where there is none such.
pub fn base_hz<K: Fn(Op, Width, u64, u64) -> u64>(c: &Calc<K>, p: &Project, source: i64) -> (r: F64)
    requires
        c.sound(),
    ensures
        r == if names(source, p.sources@.len()) {
            p.sources@[source as int].tuned_hz().to_f64(c)
        } else {
            double(0)
        },
{
    match place(source, p.sources.len()) {
        Some(i) => p.sources[i].effective_base_hz().to_f64(c),
        None => double(0),
    }
}

/// Set the fundamental of a source, where there is one such.
pub fn set_base_hz<K: Fn(Op, Width, u64, u64) -> u64>(c: &Calc<K>, p: &mut Project, source: i64, hz: F64)
    requires
        c.sound(),
    ensures
        final(p).same_but_sources(*old(p)),
        final(p).sources@ == if names(source, old(p).sources@.len()) {
            old(p).sources@.update(
                source as int,
                Source { base_hz: hz.max(double(0)).to_f32(c), ..old(p).sources@[source as int] },
            )
        } else {
            old(p).sources@
        },
        old(p).wf() ==> final(p).wf(),
{
    let ghost before = *p;
    if let Some(i) = place(source, p.sources.len()) {
        p.sources[i].base_hz = hz.max(double(0)).to_f32(c);
        proof {
            if before.wf() {
                assert forall|k: int| 0 <= k < p.sources@.len() implies (
                #[trigger] p.sources@[k]).wf() by {
                    assert(before.sources@[k].wf());
                }
            }
        }
    }
}

// ------------------------------------------------------------ tracks & clips

/// Add a track; its number.
pub fn add_track(p: &mut Project, name: &str) -> (r: i64)
    requires
        old(p).tracks@.len() <= i64::MAX,
    ensures
        r == old(p).tracks@.len(),
        final(p).tracks@.len() == r + 1,
        forall|i: int| 0 <= i < r ==> final(p).tracks@[i] == old(p).tracks@[i],
        final(p).tracks@[r as int].blank(name@),
        *final(p) == (Project { tracks: final(p).tracks, ..*old(p) }),
        old(p).wf() ==> final(p).wf(),
{
    let ghost before = *p;
    let i: usize = p.add_track(name);
    proof {
        if before.wf() {
            assert forall|k: int| 0 <= k < p.tracks@.len() implies (#[trigger] p.tracks@[k]).wf() by {
                if k < before.tracks@.len() {
                    assert(before.tracks@[k].wf());
                }
            }
        }
    }
    i as i64
}

/// Whether a clip is the only new thing, at the end of track `t`.
pub open spec fn clip_placed(before: Project, after: Project, t: int, clip: Clip) -> bool {
    &&& only_track(before, after, t)
    &&& same_track_but_clips(after.tracks@[t], before.tracks@[t])
    &&& after.tracks@[t].clips@ == before.tracks@[t].clips@.push(clip)
}

fn push_clip(p: &mut Project, track: i64, clip: Clip) -> (r: Result<ClipRef, String>)
    requires
        clip.wf(),
        forall|t: int| 0 <= t < old(p).tracks@.len() ==> (#[trigger] old(p).tracks@[t]).clips@.len() < i64::MAX,
    ensures
        r is Ok <==> names(track, old(p).tracks@.len()),
        r is Ok ==> clip_placed(*old(p), *final(p), track as int, clip) && r->Ok_0 == (ClipRef {
            track,
            index: old(p).tracks@[track as int].clips@.len() as i64,
        }) && (old(p).wf() ==> final(p).wf()),
        r is Err ==> *final(p) == *old(p) && r->Err_0@ == "no track "@ + text::signed_decimal(
            track as int,
        ),
{
    let ghost before = *p;
    match place(track, p.tracks.len()) {
        None => Err(missing("no track ", track)),
        Some(t) => {
            let index: i64 = p.tracks[t].clips.len() as i64;
            p.tracks[t].clips.push(clip);
            proof {
                if before.wf() {
                    assert(before.tracks@[t as int].wf());
                    assert forall|k: int| 0 <= k < p.tracks@[t as int].clips@.len() implies (
                    #[trigger] p.tracks@[t as int].clips@[k]).wf() by {
                        if k < before.tracks@[t as int].clips@.len() {
                            assert(before.tracks@[t as int].clips@[k].wf());
                        }
                    }
                    lemma_track_wf(before, *p, t as int);
                }
            }
            Ok(ClipRef { track, index })
        },
    }
}

/// What a command that places a clip says of the numbers it was given: the thing that
/// is missing first, if any.
pub open spec fn place_error(p: Project, what: Seq<char>, i: i64, n: nat, track: i64) -> Option<Seq<char>> {
    if !names(i, n) {
        Some(what + text::signed_decimal(i as int))
    } else if !names(track, p.tracks@.len()) {
        Some("no track "@ + text::signed_decimal(track as int))
    } else {
        None
    }
}

/// Whether no track has too many clips to number.
pub open spec fn clips_countable(p: Project) -> bool {
    forall|t: int| 0 <= t < p.tracks@.len() ==> (#[trigger] p.tracks@[t]).clips@.len() < i64::MAX
}

/// Place a granular clip.
pub fn place_clip(p: &mut Project, track: i64, source: i64, start_beat: F64, length_beats: F64) -> (r: Result<ClipRef, String>)
    requires
        clips_countable(*old(p)),
    ensures
        match place_error(*old(p), "no source "@, source, old(p).sources@.len(), track) {
            Some(e) => r is Err && r->Err_0@ == e && *final(p) == *old(p),
            None => {
                &&& r is Ok
                &&& r->Ok_0 == (ClipRef {
                    track,
                    index: old(p).tracks@[track as int].clips@.len() as i64,
                })
                &&& ({
                    let clip = the_clip(*final(p), r->Ok_0);
                    &&& clip_placed(*old(p), *final(p), track as int, clip)
                    &&& clip.fresh(source as usize, start_beat, length_beats.max(double(0x3f50_624d_d2f1_a9fc)))
                    &&& clip.kind == ClipKind::Granular
                    &&& clip.grains == GrainSettings::standard()
                })
                &&& old(p).wf() ==> final(p).wf()
            },
        },
{
    match place(source, p.sources.len()) {
        None => Err(missing("no source ", source)),
        Some(s) => push_clip(p, track, Clip::new(s, start_beat, length_beats.max(double(0x3f50_624d_d2f1_a9fc)))),
    }
}

/// Place a snippet: the source played straight as ONE long grain, keeping the
/// full AV correspondence (gain->opacity, pitch->rate/hue, pan->x).
pub fn place_snippet(p: &mut Project, track: i64, source: i64, start_beat: F64, length_beats: F64) -> (r: Result<ClipRef, String>)
    requires
        clips_countable(*old(p)),
    ensures
        match place_error(*old(p), "no source "@, source, old(p).sources@.len(), track) {
            Some(e) => r is Err && r->Err_0@ == e && *final(p) == *old(p),
            None => {
                &&& r is Ok
                &&& r->Ok_0 == (ClipRef {
                    track,
                    index: old(p).tracks@[track as int].clips@.len() as i64,
                })
                &&& ({
                    let clip = the_clip(*final(p), r->Ok_0);
                    &&& clip_placed(*old(p), *final(p), track as int, clip)
                    &&& clip.fresh(source as usize, start_beat, length_beats.max(double(0x3f50_624d_d2f1_a9fc)))
                    &&& clip.kind == ClipKind::Snippet
                    &&& clip.grains == (GrainSettings {
                        envelope: single(0x3d4c_cccd),
                        pan_spread: single(0),
                        ..GrainSettings::standard()
                    })
                })
                &&& old(p).wf() ==> final(p).wf()
            },
        },
{
    match place(source, p.sources.len()) {
        None => Err(missing("no source ", source)),
        Some(s) => push_clip(p, track, Clip::new_snippet(s, start_beat, length_beats.max(double(0x3f50_624d_d2f1_a9fc)))),
    }
}

/// Place a pattern clip.
pub fn place_pattern(p: &mut Project, track: i64, pattern: i64, start_beat: F64, length_beats: F64) -> (r: Result<ClipRef, String>)
    requires
        clips_countable(*old(p)),
    ensures
        match place_error(*old(p), "no pattern "@, pattern, old(p).patterns@.len(), track) {
            Some(e) => r is Err && r->Err_0@ == e && *final(p) == *old(p),
            None => {
                &&& r is Ok
                &&& r->Ok_0 == (ClipRef {
                    track,
                    index: old(p).tracks@[track as int].clips@.len() as i64,
                })
                &&& ({
                    let clip = the_clip(*final(p), r->Ok_0);
                    &&& clip_placed(*old(p), *final(p), track as int, clip)
                    &&& clip.fresh(0, start_beat, length_beats.max(double(0x3f50_624d_d2f1_a9fc)))
                    &&& clip.kind == ClipKind::Pattern(pattern as usize)
                    &&& clip.grains == GrainSettings::standard()
                })
                &&& old(p).wf() ==> final(p).wf()
            },
        },
{
    match place(pattern, p.patterns.len()) {
        None => Err(missing("no pattern ", pattern)),
        Some(k) => push_clip(p, track, Clip::new_pattern(k, start_beat, length_beats.max(double(0x3f50_624d_d2f1_a9fc)))),
    }
}

/// Whether a command on a clip did what it should: the clip is there and became
/// `clip`, or it is not and nothing changed.
pub open spec fn clip_set(before: Project, after: Project, c: ClipRef, r: Result<(), String>, clip: Clip) -> bool {
    if has_clip(before, c) {
        &&& r is Ok
        &&& only_clip(before, after, c.track as int, c.index as int)
        &&& the_clip(after, c) == clip
        &&& before.wf() ==> after.wf()
    } else {
        r is Err && r->Err_0@ == no_clip(before, c) && after == before
    }
}

/// A style after the parameter of that key is set; `None` where there is none such.
pub open spec fn style_set(v: VisualGrainStyle, key: Seq<char>, x: F32) -> Option<VisualGrainStyle> {
    if key == "size_scale"@ {
        Some(VisualGrainStyle { size_scale: x.max(single(0)), ..v })
    } else if key == "min_size"@ {
        Some(VisualGrainStyle { min_size: x.limit(single(0x3c23_d70a), single(0x3f80_0000)), ..v })
    } else if key == "max_size"@ {
        Some(VisualGrainStyle { max_size: x.limit(single(0x3c23_d70a), single(0x3f80_0000)), ..v })
    } else if key == "additive"@ {
        Some(VisualGrainStyle { additive: x.limit(single(0), single(0x3f80_0000)), ..v })
    } else if key == "scatter_y"@ {
        Some(VisualGrainStyle { scatter_y: x.limit(single(0), single(0x3f80_0000)), ..v })
    } else {
        None
    }
}

fn set_style(v: &mut VisualGrainStyle, key: &Vec<char>, x: F32) -> (r: bool)
    ensures
        r == style_set(*old(v), key@, x) is Some,
        *final(v) == if r {
            style_set(*old(v), key@, x)->0
        } else {
            *old(v)
        },
{
    if text::spells(key, "size_scale") {
        v.size_scale = x.max(single(0));
        true
    } else if text::spells(key, "min_size") {
        v.min_size = x.limit(single(0x3c23_d70a), single(0x3f80_0000));
        true
    } else if text::spells(key, "max_size") {
        v.max_size = x.limit(single(0x3c23_d70a), single(0x3f80_0000));
        true
    } else if text::spells(key, "additive") {
        v.additive = x.limit(single(0), single(0x3f80_0000));
        true
    } else if text::spells(key, "scatter_y") {
        v.scatter_y = x.limit(single(0), single(0x3f80_0000));
        true
    } else {
        false
    }
}

/// A clip after its grain, style or link parameter of that key is set; `None` where it
/// has none such.
pub open spec fn clip_param_set<K: Fn(Op, Width, u64, u64) -> u64>(c: &Calc<K>, clip: Clip, key: Seq<char>, value: F64) -> Option<Clip> {
    match grain_set(c, clip.grains, key, value) {
        Some(grains) => Some(Clip { grains, ..clip }),
        None => match style_set(clip.visual, key, value.to_f32(c)) {
            Some(visual) => Some(Clip { visual, ..clip }),
            None => match link_set(clip.link, text::keyed(key), value.to_f32(c)) {
                Some(link) => Some(Clip { link, ..clip }),
                None => None,
            },
        },
    }
}

/// What a clip's parameters become.
struct Params {
    grains: GrainSettings,
    visual: VisualGrainStyle,
    link: AvLink,
}

fn next_params<K: Fn(Op, Width, u64, u64) -> u64>(c: &Calc<K>, clip: &Clip, key: &Vec<char>, value: F64) -> (r: Option<Params>)
    requires
        c.sound(),
    ensures
        match clip_param_set(c, *clip, key@, value) {
            Some(next) => r is Some && next == (Clip {
                grains: r->0.grains,
                visual: r->0.visual,
                link: r->0.link,
                ..*clip
            }),
            None => r is None,
        },
{
    let name: String = text::text_of(key);
    let x: F32 = value.to_f32(c);
    let mut grains: GrainSettings = clip.grains;
    let mut visual: VisualGrainStyle = clip.visual;
    let mut link: AvLink = clip.link;
    match grains.set_param(c, name.as_str(), value) {
        Ok(()) => {
            return Some(Params { grains, visual, link });
        },
        Err(()) => {},
    }
    if set_style(&mut visual, key, x) {
        return Some(Params { grains: clip.grains, visual, link });
    }
    match link.set_param(name.as_str(), x) {
        Ok(()) => Some(Params { grains: clip.grains, visual: clip.visual, link }),
        Err(_e) => None,
    }
}

/// Set a grain, style or link parameter of a clip by name.
pub fn set_param<K: Fn(Op, Width, u64, u64) -> u64>(c: &Calc<K>, p: &mut Project, clip: ClipRef, prop: &str, value: F64) -> (r: Result<(), String>)
    requires
        c.sound(),
    ensures
        match clip_param_set(c, the_clip(*old(p), clip), text::keyed(prop@), value) {
            Some(next) => clip_set(*old(p), *final(p), clip, r, next),
            None => if has_clip(*old(p), clip) {
                r is Err && r->Err_0@ == "unknown parameter '"@ + text::keyed(prop@) + "'"@
                    && *final(p) == *old(p)
            } else {
                r is Err && r->Err_0@ == no_clip(*old(p), clip) && *final(p) == *old(p)
            },
        },
{
    let key: Vec<char> = text::key(prop);
    let ghost before = *p;
    let (t, i): (usize, usize) = match find_clip(p, clip) {
        Ok(at) => at,
        Err(e) => {
            return Err(e);
        },
    };
    match next_params(c, &p.tracks[t].clips[i], &key, value) {
        Some(next) => {
            p.tracks[t].clips[i].grains = next.grains;
            p.tracks[t].clips[i].visual = next.visual;
            p.tracks[t].clips[i].link = next.link;
            proof {
                lemma_clip_changed(before, *p, t as int, i as int);
            }
            Ok(())
        },
        None => {
            let name: String = text::text_of(&key);
            Err(quoted("unknown parameter '", name.as_str()))
        },
    }
}

/// A change that keeps its part whole keeps the project whole.
pub proof fn lemma_clip_changed(before: Project, after: Project, t: int, i: int)
    requires
        0 <= t < before.tracks@.len(),
        0 <= i < before.tracks@[t].clips@.len(),
        only_clip(before, after, t, i),
        before.tracks@[t].clips@[i].wf() ==> after.tracks@[t].clips@[i].wf(),
    ensures
        before.wf() ==> after.wf(),
{
    if before.wf() {
        assert(before.tracks@[t].wf());
        assert(before.tracks@[t].clips@[i].wf());
        lemma_clip_wf(before, after, t, i);
    }
}

/// The key that a root and a scale name, if any.
pub open spec fn key_of(root: Seq<char>, scale: Seq<char>) -> Option<Key> {
    match (note_class(text::trimmed(root)), scale_named(text::squashed(scale))) {
        (Some(pc), Some(kind)) => Some(Key { root: pc as i32, scale: kind }),
        _ => None,
    }
}

/// A transform within its bounds.
#[verifier::allow_in_spec]
pub fn transform_of<K: Fn(Op, Width, u64, u64) -> u64>(c: &Calc<K>, x: F64, y: F64, scale: F64, rotation: F64) -> ClipTransform
    requires
        c.sound(),
    returns
        (ClipTransform {
            x: x.to_f32(c).limit(single(0xc000_0000), single(0x4000_0000)),
            y: y.to_f32(c).limit(single(0xc000_0000), single(0x4000_0000)),
            scale: scale.to_f32(c).limit(single(0x3d4c_cccd), single(0x4080_0000)),
            rotation: rotation.to_f32(c),
        }),
{
    ClipTransform {
        x: x.to_f32(c).limit(single(0xc000_0000), single(0x4000_0000)),
        y: y.to_f32(c).limit(single(0xc000_0000), single(0x4000_0000)),
        scale: scale.to_f32(c).limit(single(0x3d4c_cccd), single(0x4080_0000)),
        rotation: rotation.to_f32(c),
    }
}

/// Quantize a clip's pitches onto a key.
pub fn set_key(p: &mut Project, clip: ClipRef, root: &str, scale: &str) -> (r: Result<(), String>)
    ensures
        if key_of(root@, scale@) is None {
            r is Err && r->Err_0@ == "bad key: "@ + root@ + " "@ + scale@ && *final(p) == *old(p)
        } else {
            &&& clip_set(
                *old(p),
                *final(p),
                clip,
                r,
                (Clip { key: key_of(root@, scale@), ..the_clip(*old(p), clip) }),
            )
        },
{
    let key: Key = match Key::parse(root, scale) {
        Some(k) => k,
        None => {
            let mut e: String = text::join3("bad key: ", root, " ");
            e.append(scale);
            return Err(e);
        },
    };
    let ghost before = *p;
    let (t, i): (usize, usize) = match find_clip(p, clip) {
        Ok(at) => at,
        Err(e) => {
            return Err(e);
        },
    };
    p.tracks[t].clips[i].key = Some(key);
    proof {
        assert(only_clip(before, *p, t as int, i as int));
        lemma_clip_changed(before, *p, t as int, i as int);
    }
    Ok(())
}

/// Leave a clip's pitches free.
pub fn clear_key(p: &mut Project, clip: ClipRef) -> (r: Result<(), String>)
    ensures
        clip_set(
            *old(p),
            *final(p),
            clip,
            r,
            (Clip { key: None, ..the_clip(*old(p), clip) }),
        ),
{
    let ghost before = *p;
    let (t, i): (usize, usize) = match find_clip(p, clip) {
        Ok(at) => at,
        Err(e) => {
            return Err(e);
        },
    };
    p.tracks[t].clips[i].key = None;
    proof {
        assert(only_clip(before, *p, t as int, i as int));
        lemma_clip_changed(before, *p, t as int, i as int);
    }
    Ok(())
}

/// Filter a clip's audio.
pub fn add_audio_filter<K: Fn(Op, Width, u64, u64) -> u64>(c: &Calc<K>, p: &mut Project, clip: ClipRef, kind: &str, freq: F64, q: F64) -> (r: Result<(), String>)
    requires
        c.sound(),
    ensures
        if filter_named(text::squashed(kind@)) is None {
            r is Err && r->Err_0@ == "bad filter kind: "@ + kind@ && *final(p) == *old(p)
        } else {
            &&& clip_set(
                *old(p),
                *final(p),
                clip,
                r,
                (Clip { audio_filters: the_clip(*final(p), clip).audio_filters, ..the_clip(*old(p), clip) }),
            )
            &&& has_clip(*old(p), clip) ==> the_clip(*final(p), clip).audio_filters@ == the_clip(*old(p), clip).audio_filters@.push(
                    (FilterSpec {
                        kind: filter_named(text::squashed(kind@))->0,
                        freq: freq.to_f32(c),
                        q: q.to_f32(c),
                    }),
                )
        },
{
    let spec: FilterSpec = match FilterKind::parse(kind) {
        Some(k) => FilterSpec { kind: k, freq: freq.to_f32(c), q: q.to_f32(c) },
        None => {
            let mut e: String = "bad filter kind: ".to_owned();
            e.append(kind);
            return Err(e);
        },
    };
    let ghost before = *p;
    let (t, i): (usize, usize) = match find_clip(p, clip) {
        Ok(at) => at,
        Err(e) => {
            return Err(e);
        },
    };
    p.tracks[t].clips[i].audio_filters.push(spec);
    proof {
        assert(only_clip(before, *p, t as int, i as int));
        lemma_clip_changed(before, *p, t as int, i as int);
    }
    Ok(())
}

/// Take all filters off a clip's audio.
pub fn clear_audio_filters(p: &mut Project, clip: ClipRef) -> (r: Result<(), String>)
    ensures
        clip_set(
            *old(p),
            *final(p),
            clip,
            r,
            (Clip { audio_filters: the_clip(*final(p), clip).audio_filters, ..the_clip(*old(p), clip) }),
        ),
        has_clip(*old(p), clip) ==> the_clip(*final(p), clip).audio_filters@ == Seq::<FilterSpec>::empty(),
{
    let ghost before = *p;
    let (t, i): (usize, usize) = match find_clip(p, clip) {
        Ok(at) => at,
        Err(e) => {
            return Err(e);
        },
    };
    p.tracks[t].clips[i].audio_filters.clear();
    proof {
        assert(only_clip(before, *p, t as int, i as int));
        lemma_clip_changed(before, *p, t as int, i as int);
    }
    Ok(())
}

/// Keep a hue band of a clip.
pub fn color_keep<K: Fn(Op, Width, u64, u64) -> u64>(c: &Calc<K>, p: &mut Project, clip: ClipRef, hue: F64, width: F64) -> (r: Result<(), String>)
    requires
        c.sound(),
    ensures
        clip_set(
            *old(p),
            *final(p),
            clip,
            r,
            (Clip { color_filter: Some(
                    ColorFilter::band(ColorFilterMode::Keep, hue.to_f32(c), width.to_f32(c)),
                ), ..the_clip(*old(p), clip) }),
        ),
{
    let ghost before = *p;
    let (t, i): (usize, usize) = match find_clip(p, clip) {
        Ok(at) => at,
        Err(e) => {
            return Err(e);
        },
    };
    p.tracks[t].clips[i].color_filter = Some(ColorFilter::keep(hue.to_f32(c), width.to_f32(c)));
    proof {
        assert(only_clip(before, *p, t as int, i as int));
        lemma_clip_changed(before, *p, t as int, i as int);
    }
    Ok(())
}

/// Remove a hue band from a clip.
pub fn color_remove<K: Fn(Op, Width, u64, u64) -> u64>(c: &Calc<K>, p: &mut Project, clip: ClipRef, hue: F64, width: F64) -> (r: Result<(), String>)
    requires
        c.sound(),
    ensures
        clip_set(
            *old(p),
            *final(p),
            clip,
            r,
            (Clip { color_filter: Some(
                    ColorFilter::band(ColorFilterMode::Remove, hue.to_f32(c), width.to_f32(c)),
                ), ..the_clip(*old(p), clip) }),
        ),
{
    let ghost before = *p;
    let (t, i): (usize, usize) = match find_clip(p, clip) {
        Ok(at) => at,
        Err(e) => {
            return Err(e);
        },
    };
    p.tracks[t].clips[i].color_filter = Some(ColorFilter::remove(hue.to_f32(c), width.to_f32(c)));
    proof {
        assert(only_clip(before, *p, t as int, i as int));
        lemma_clip_changed(before, *p, t as int, i as int);
    }
    Ok(())
}

/// Take the color filter off a clip.
pub fn clear_color_filter(p: &mut Project, clip: ClipRef) -> (r: Result<(), String>)
    ensures
        clip_set(
            *old(p),
            *final(p),
            clip,
            r,
            (Clip { color_filter: None, ..the_clip(*old(p), clip) }),
        ),
{
    let ghost before = *p;
    let (t, i): (usize, usize) = match find_clip(p, clip) {
        Ok(at) => at,
        Err(e) => {
            return Err(e);
        },
    };
    p.tracks[t].clips[i].color_filter = None;
    proof {
        assert(only_clip(before, *p, t as int, i as int));
        lemma_clip_changed(before, *p, t as int, i as int);
    }
    Ok(())
}

/// Place a clip's visuals on the canvas.
pub fn set_transform<K: Fn(Op, Width, u64, u64) -> u64>(c: &Calc<K>, p: &mut Project, clip: ClipRef, x: F64, y: F64, scale: F64, rotation: F64) -> (r: Result<(), String>)
    requires
        c.sound(),
    ensures
        clip_set(
            *old(p),
            *final(p),
            clip,
            r,
            (Clip { transform: transform_of(c, x, y, scale, rotation), ..the_clip(*old(p), clip) }),
        ),
{
    let next: ClipTransform = transform_of(c, x, y, scale, rotation);
    let ghost before = *p;
    let (t, i): (usize, usize) = match find_clip(p, clip) {
        Ok(at) => at,
        Err(e) => {
            return Err(e);
        },
    };
    p.tracks[t].clips[i].transform = next;
    proof {
        assert(only_clip(before, *p, t as int, i as int));
        lemma_clip_changed(before, *p, t as int, i as int);
    }
    Ok(())
}

/// Take all effects off a clip.
pub fn clear_effects(p: &mut Project, clip: ClipRef) -> (r: Result<(), String>)
    ensures
        clip_set(
            *old(p),
            *final(p),
            clip,
            r,
            (Clip { effects: the_clip(*final(p), clip).effects, ..the_clip(*old(p), clip) }),
        ),
        has_clip(*old(p), clip) ==> the_clip(*final(p), clip).effects@ == Seq::<AvEffect>::empty(),
{
    let ghost before = *p;
    let (t, i): (usize, usize) = match find_clip(p, clip) {
        Ok(at) => at,
        Err(e) => {
            return Err(e);
        },
    };
    p.tracks[t].clips[i].effects.clear();
    proof {
        assert(only_clip(before, *p, t as int, i as int));
        lemma_clip_changed(before, *p, t as int, i as int);
    }
    Ok(())
}

/// Add an effect to a clip; its number.
pub fn add_effect(p: &mut Project, clip: ClipRef, kind: &str) -> (r: Result<i64, String>)
    requires
        has_clip(*old(p), clip) ==> the_clip(*old(p), clip).effects@.len() <= i64::MAX,
    ensures
        if effect_named(text::lowered(kind@)) is None {
            r is Err && r->Err_0@ == "unknown effect '"@ + kind@ + "'"@ && *final(p) == *old(p)
        } else if !has_clip(*old(p), clip) {
            r is Err && r->Err_0@ == no_clip(*old(p), clip) && *final(p) == *old(p)
        } else {
            &&& r is Ok
            &&& r->Ok_0 == the_clip(*old(p), clip).effects@.len()
            &&& only_clip(*old(p), *final(p), clip.track as int, clip.index as int)
            &&& the_clip(*final(p), clip) == Clip {
                effects: the_clip(*final(p), clip).effects,
                ..the_clip(*old(p), clip)
            }
            &&& the_clip(*final(p), clip).effects@ == the_clip(*old(p), clip).effects@.push(
                (AvEffect {
                    kind: effect_named(text::lowered(kind@))->0,
                    audio: single(0x3f80_0000),
                    video: single(0x3f80_0000),
                }),
            )
            &&& old(p).wf() ==> final(p).wf()
        },
{
    let fx: AvEffect = match EffectKind::parse(kind) {
        Some(k) => AvEffect::new(k),
        None => {
            return Err(quoted("unknown effect '", kind));
        },
    };
    let ghost before = *p;
    let (t, i): (usize, usize) = match find_clip(p, clip) {
        Ok(at) => at,
        Err(e) => {
            return Err(e);
        },
    };
    let n: i64 = p.tracks[t].clips[i].effects.len() as i64;
    p.tracks[t].clips[i].effects.push(fx);
    proof {
        assert(only_clip(before, *p, t as int, i as int));
        lemma_clip_changed(before, *p, t as int, i as int);
    }
    Ok(n)
}

/// What setting a parameter of effect `idx` of a chain gives: the chain after it, or
/// what is wrong.
pub open spec fn chain_set<K: Fn(Op, Width, u64, u64) -> u64>(c: &Calc<K>, chain: Seq<AvEffect>, idx: i64, param: Seq<char>, value: F64, absent: Seq<char>) -> Result<Seq<AvEffect>, Seq<char>> {
    if !names(idx, chain.len()) {
        Err(absent)
    } else {
        match effect_set(chain[idx as int], text::keyed(param), value.to_f32(c)) {
            Some(fx) => Ok(chain.update(idx as int, fx)),
            None => Err(
                crate::fx::effect_name(chain[idx as int].kind) + " has no parameter '"@ + param
                    + "'"@,
            ),
        }
    }
}

fn next_effect<K: Fn(Op, Width, u64, u64) -> u64>(c: &Calc<K>, fx: AvEffect, param: &str, value: F64) -> (r: Result<AvEffect, String>)
    requires
        c.sound(),
    ensures
        match effect_set(fx, text::keyed(param@), value.to_f32(c)) {
            Some(next) => r is Ok && r->Ok_0 == next,
            None => r is Err && r->Err_0@ == crate::fx::effect_name(fx.kind)
                + " has no parameter '"@ + param@ + "'"@,
        },
{
    let mut next: AvEffect = fx;
    match next.set_param(param, value.to_f32(c)) {
        Ok(()) => Ok(next),
        Err(e) => Err(e),
    }
}

/// Set a parameter of a clip's effect.
pub fn set_effect_param<K: Fn(Op, Width, u64, u64) -> u64>(c: &Calc<K>, p: &mut Project, clip: ClipRef, idx: i64, param: &str, value: F64) -> (r: Result<(), String>)
    requires
        c.sound(),
    ensures
        if !has_clip(*old(p), clip) {
            r is Err && r->Err_0@ == no_clip(*old(p), clip) && *final(p) == *old(p)
        } else {
            match chain_set(
                c,
                the_clip(*old(p), clip).effects@,
                idx,
                param@,
                value,
                "no effect "@ + text::signed_decimal(idx as int) + " on clip"@,
            ) {
                Ok(chain) => {
                    &&& clip_set(
                        *old(p),
                        *final(p),
                        clip,
                        r,
                        (Clip {
                            effects: the_clip(*final(p), clip).effects,
                            ..the_clip(*old(p), clip)
                        }),
                    )
                    &&& the_clip(*final(p), clip).effects@ == chain
                },
                Err(e) => r is Err && r->Err_0@ == e && *final(p) == *old(p),
            }
        },
{
    let ghost before = *p;
    let (t, i): (usize, usize) = match find_clip(p, clip) {
        Ok(at) => at,
        Err(e) => {
            return Err(e);
        },
    };
    let k: usize = match place(idx, p.tracks[t].clips[i].effects.len()) {
        Some(k) => k,
        None => {
            let mut e: String = missing("no effect ", idx);
            e.append(" on clip");
            return Err(e);
        },
    };
    match next_effect(c, p.tracks[t].clips[i].effects[k], param, value) {
        Ok(fx) => {
            p.tracks[t].clips[i].effects.set(k, fx);
            proof {
                assert(only_clip(before, *p, t as int, i as int));
                lemma_clip_changed(before, *p, t as int, i as int);
            }
            Ok(())
        },
        Err(e) => Err(e),
    }
}

// ------------------------------------------------------------------- mixer

/// Set a track's level, where there is such a track.
pub fn set_track_level<K: Fn(Op, Width, u64, u64) -> u64>(c: &Calc<K>, p: &mut Project, track: i64, level: F64)
    requires
        c.sound(),
    ensures
        if names(track, old(p).tracks@.len()) {
            &&& only_track(*old(p), *final(p), track as int)
            &&& final(p).tracks@[track as int] == Track {
                level: level.to_f32(c).limit(single(0), single(0x4000_0000)),
                ..old(p).tracks@[track as int]
            }
        } else {
            *final(p) == *old(p)
        },
        old(p).wf() ==> final(p).wf(),
{
    let ghost before = *p;
    if let Some(t) = place(track, p.tracks.len()) {
        p.tracks[t].level = level.to_f32(c).limit(single(0), single(0x4000_0000));
        proof {
            lemma_track_changed(before, *p, t as int);
        }
    }
}

/// Set how strongly a track's level drives its opacity, where there is such a track.
pub fn set_opacity_link<K: Fn(Op, Width, u64, u64) -> u64>(c: &Calc<K>, p: &mut Project, track: i64, v: F64)
    requires
        c.sound(),
    ensures
        if names(track, old(p).tracks@.len()) {
            &&& only_track(*old(p), *final(p), track as int)
            &&& final(p).tracks@[track as int] == Track {
                level_to_opacity: v.to_f32(c).limit(single(0), single(0x3f80_0000)),
                ..old(p).tracks@[track as int]
            }
        } else {
            *final(p) == *old(p)
        },
        old(p).wf() ==> final(p).wf(),
{
    let ghost before = *p;
    if let Some(t) = place(track, p.tracks.len()) {
        p.tracks[t].level_to_opacity = v.to_f32(c).limit(single(0), single(0x3f80_0000));
        proof {
            lemma_track_changed(before, *p, t as int);
        }
    }
}

/// Mute a track or not, where there is such a track.
pub fn set_mute(p: &mut Project, track: i64, mute: bool)
    ensures
        if names(track, old(p).tracks@.len()) {
            &&& only_track(*old(p), *final(p), track as int)
            &&& final(p).tracks@[track as int] == Track { muted: mute, ..old(p).tracks@[track as int] }
        } else {
            *final(p) == *old(p)
        },
        old(p).wf() ==> final(p).wf(),
{
    let ghost before = *p;
    if let Some(t) = place(track, p.tracks.len()) {
        p.tracks[t].muted = mute;
        proof {
            lemma_track_changed(before, *p, t as int);
        }
    }
}

/// A change that keeps its part whole keeps the project whole.
pub proof fn lemma_track_changed(before: Project, after: Project, t: int)
    requires
        0 <= t < before.tracks@.len(),
        only_track(before, after, t),
        before.tracks@[t].wf() ==> after.tracks@[t].wf(),
    ensures
        before.wf() ==> after.wf(),
{
    if before.wf() {
        assert(before.tracks@[t].wf());
        lemma_track_wf(before, after, t);
    }
}

/// Add an effect to a track; its number.
pub fn add_track_effect(p: &mut Project, track: i64, kind: &str) -> (r: Result<i64, String>)
    requires
        names(track, old(p).tracks@.len()) ==> old(p).tracks@[track as int].effects@.len() <= i64::MAX,
    ensures
        if effect_named(text::lowered(kind@)) is None {
            r is Err && r->Err_0@ == "unknown effect '"@ + kind@ + "'"@ && *final(p) == *old(p)
        } else if !names(track, old(p).tracks@.len()) {
            r is Err && r->Err_0@ == "no track "@ + text::signed_decimal(track as int) && *final(p)
                == *old(p)
        } else {
            &&& r is Ok
            &&& r->Ok_0 == old(p).tracks@[track as int].effects@.len()
            &&& only_track(*old(p), *final(p), track as int)
            &&& final(p).tracks@[track as int] == Track {
                effects: final(p).tracks@[track as int].effects,
                ..old(p).tracks@[track as int]
            }
            &&& final(p).tracks@[track as int].effects@ == old(p).tracks@[track as int].effects@.push(
                (AvEffect {
                    kind: effect_named(text::lowered(kind@))->0,
                    audio: single(0x3f80_0000),
                    video: single(0x3f80_0000),
                }),
            )
        },
        old(p).wf() ==> final(p).wf(),
{
    let fx: AvEffect = match EffectKind::parse(kind) {
        Some(k) => AvEffect::new(k),
        None => {
            return Err(quoted("unknown effect '", kind));
        },
    };
    let ghost before = *p;
    match place(track, p.tracks.len()) {
        None => Err(missing("no track ", track)),
        Some(t) => {
            let n: i64 = p.tracks[t].effects.len() as i64;
            p.tracks[t].effects.push(fx);
            proof {
                lemma_track_changed(before, *p, t as int);
            }
            Ok(n)
        },
    }
}

/// What is said where a track's effect is not there.
pub open spec fn no_track_effect(idx: i64, track: i64) -> Seq<char> {
    "no effect "@ + text::signed_decimal(idx as int) + " on track "@ + text::signed_decimal(
        track as int,
    )
}

/// Set a parameter of a track's effect.
pub fn set_track_effect_param<K: Fn(Op, Width, u64, u64) -> u64>(c: &Calc<K>, p: &mut Project, track: i64, idx: i64, param: &str, value: F64) -> (r: Result<(), String>)
    requires
        c.sound(),
    ensures
        if !names(track, old(p).tracks@.len()) {
            r is Err && r->Err_0@ == no_track_effect(idx, track) && *final(p) == *old(p)
        } else {
            match chain_set(
                c,
                old(p).tracks@[track as int].effects@,
                idx,
                param@,
                value,
                no_track_effect(idx, track),
            ) {
                Ok(chain) => {
                    &&& r is Ok
                    &&& only_track(*old(p), *final(p), track as int)
                    &&& final(p).tracks@[track as int] == Track {
                        effects: final(p).tracks@[track as int].effects,
                        ..old(p).tracks@[track as int]
                    }
                    &&& final(p).tracks@[track as int].effects@ == chain
                },
                Err(e) => r is Err && r->Err_0@ == e && *final(p) == *old(p),
            }
        },
        old(p).wf() ==> final(p).wf(),
{
    let ghost before = *p;
    if let Some(t) = place(track, p.tracks.len()) {
        if let Some(k) = place(idx, p.tracks[t].effects.len()) {
            return match next_effect(c, p.tracks[t].effects[k], param, value) {
                Ok(fx) => {
                    p.tracks[t].effects.set(k, fx);
                    proof {
                        lemma_track_changed(before, *p, t as int);
                    }
                    Ok(())
                },
                Err(e) => Err(e),
            };
        }
    }
    let mut e: String = missing("no effect ", idx);
    e.append(" on track ");
    text::push_signed(&mut e, track);
    Err(e)
}

/// Add a master effect; its number.
pub fn add_master_effect(p: &mut Project, kind: &str) -> (r: Result<i64, String>)
    requires
        old(p).master_effects@.len() <= i64::MAX,
    ensures
        match effect_named(text::lowered(kind@)) {
            None => r is Err && r->Err_0@ == "unknown effect '"@ + kind@ + "'"@ && *final(p)
                == *old(p),
            Some(k) => {
                &&& r is Ok
                &&& r->Ok_0 == old(p).master_effects@.len()
                &&& *final(p) == Project { master_effects: final(p).master_effects, ..*old(p) }
                &&& final(p).master_effects@ == old(p).master_effects@.push(
                    (AvEffect { kind: k, audio: single(0x3f80_0000), video: single(0x3f80_0000) }),
                )
            },
        },
        old(p).wf() ==> final(p).wf(),
{
    match EffectKind::parse(kind) {
        Some(k) => {
            let n: i64 = p.master_effects.len() as i64;
            p.master_effects.push(AvEffect::new(k));
            Ok(n)
        },
        None => Err(quoted("unknown effect '", kind)),
    }
}

/// Set a parameter of a master effect.
pub fn set_master_effect_param<K: Fn(Op, Width, u64, u64) -> u64>(c: &Calc<K>, p: &mut Project, idx: i64, param: &str, value: F64) -> (r: Result<(), String>)
    requires
        c.sound(),
    ensures
        match chain_set(
            c,
            old(p).master_effects@,
            idx,
            param@,
            value,
            "no master effect "@ + text::signed_decimal(idx as int),
        ) {
            Ok(chain) => {
                &&& r is Ok
                &&& *final(p) == Project { master_effects: final(p).master_effects, ..*old(p) }
                &&& final(p).master_effects@ == chain
            },
            Err(e) => r is Err && r->Err_0@ == e && *final(p) == *old(p),
        },
        old(p).wf() ==> final(p).wf(),
{
    match place(idx, p.master_effects.len()) {
        None => Err(missing("no master effect ", idx)),
        Some(k) => match next_effect(c, p.master_effects[k], param, value) {
            Ok(fx) => {
                p.master_effects.set(k, fx);
                Ok(())
            },
            Err(e) => Err(e),
        },
    }
}

/// Take all master effects off.
pub fn clear_master_effects(p: &mut Project)
    ensures
        *final(p) == (Project { master_effects: final(p).master_effects, ..*old(p) }),
        final(p).master_effects@.len() == 0,
        old(p).wf() ==> final(p).wf(),
{
    p.master_effects.clear();
}

// --------------------------------------------------------------- automation

/// The number of the first lane for a parameter, or how many lanes there are.
pub open spec fn lane_for(lanes: Seq<AutomationLane>, key: Seq<char>, i: int) -> int
    decreases lanes.len() - i,
{
    if i >= lanes.len() || lanes[i].param@ == key {
        i
    } else {
        lane_for(lanes, key, i + 1)
    }
}

fn is_param(lane: &AutomationLane, key: &Vec<char>) -> (r: bool)
    ensures
        r == (lane.param@ == key@),
{
    text::spells(key, lane.param.as_str())
}

fn find_lane(lanes: &Vec<AutomationLane>, key: &Vec<char>) -> (r: usize)
    ensures
        r == lane_for(lanes@, key@, 0),
        r <= lanes@.len(),
        r < lanes@.len() ==> lanes@[r as int].param@ == key@,
{
    let mut i: usize = 0;
    while i < lanes.len() && !is_param(&lanes[i], key)
        invariant
            i <= lanes@.len(),
            lane_for(lanes@, key@, 0) == lane_for(lanes@, key@, i as int),
        decreases lanes.len() - i,
    {
        i += 1;
    }
    i
}

/// Whether a clip has a point more on the lane for a parameter: on the lane that there
/// is, or on a new one.
pub open spec fn automated<K: Fn(Op, Width, u64, u64) -> u64>(c: &Calc<K>, before: Clip, after: Clip, key: Seq<char>, beat: F64, value: F64) -> bool {
    let n = lane_for(before.automation@, key, 0);
    &&& after == Clip { automation: after.automation, ..before }
    &&& after.automation@.len() == if n < before.automation@.len() {
        before.automation@.len()
    } else {
        before.automation@.len() + 1
    }
    &&& forall|k: int|
        0 <= k < before.automation@.len() && k != n ==> #[trigger] after.automation@[k]
            == before.automation@[k]
    &&& after.automation@[n].param@ == key
    &&& after.automation@[n].points@ == with_point(
        c,
        if n < before.automation@.len() {
            before.automation@[n].points@
        } else {
            seq![]
        },
        beat,
        value,
    )
}

/// Set a point of a clip's automation.
pub fn automate<K: Fn(Op, Width, u64, u64) -> u64>(c: &Calc<K>, p: &mut Project, clip: ClipRef, param: &str, beat: F64, value: F64) -> (r: Result<(), String>)
    requires
        c.sound(),
        old(p).wf(),
        !beat.nan(),
    ensures
        if range_of(text::keyed(param@)) is None {
            r is Err && r->Err_0@ == "'"@ + param@ + "' is not automatable"@ && *final(p) == *old(p)
        } else {
            &&& clip_set(*old(p), *final(p), clip, r, the_clip(*final(p), clip))
            &&& has_clip(*old(p), clip) ==> automated(
                c,
                the_clip(*old(p), clip),
                the_clip(*final(p), clip),
                text::keyed(param@),
                beat,
                value,
            )
        },
        final(p).wf(),
{
    let key: Vec<char> = text::key(param);
    let name: String = text::text_of(&key);
    if param_range(name.as_str()).is_none() {
        return Err(text::join3("'", param, "' is not automatable"));
    }
    let ghost before = *p;
    let (t, i): (usize, usize) = match find_clip(p, clip) {
        Ok(at) => at,
        Err(e) => {
            return Err(e);
        },
    };
    let n: usize = find_lane(&p.tracks[t].clips[i].automation, &key);
    assert(before.tracks@[t as int].wf());
    assert(before.tracks@[t as int].clips@[i as int].wf());
    if n < p.tracks[t].clips[i].automation.len() {
        assert(before.tracks@[t as int].clips@[i as int].automation@[n as int].wf());
        p.tracks[t].clips[i].automation[n].set_point(c, beat, value);
    } else {
        let mut lane: AutomationLane = AutomationLane::new(name.as_str());
        lane.set_point(c, beat, value);
        assert(lane.points@ == with_point(c, seq![], beat, value));
        p.tracks[t].clips[i].automation.push(lane);
    }
    proof {
        assert(only_clip(before, *p, t as int, i as int));
        let a = before.tracks@[t as int].clips@[i as int];
        let b = p.tracks@[t as int].clips@[i as int];
        assert forall|k: int| 0 <= k < b.automation@.len() implies (
        #[trigger] b.automation@[k]).wf() by {
            if k < a.automation@.len() && k != n {
                assert(b.automation@[k] == a.automation@[k]);
                assert(a.automation@[k].wf());
            }
        }
        lemma_clip_changed(before, *p, t as int, i as int);
    }
    Ok(())
}

/// Lanes without those for a parameter.
pub open spec fn lanes_without(lanes: Seq<AutomationLane>, key: Seq<char>) -> Seq<AutomationLane>
    decreases lanes.len(),
{
    if lanes.len() == 0 {
        lanes
    } else {
        let rest = lanes_without(lanes.drop_last(), key);
        if lanes.last().param@ == key {
            rest
        } else {
            rest.push(lanes.last())
        }
    }
}

/// What lanes hold: parameter names and points.
pub open spec fn lanes_view(lanes: Seq<AutomationLane>) -> Seq<(Seq<char>, Seq<AutoPoint>)> {
    lanes.map_values(|l: AutomationLane| (l.param@, l.points@))
}

fn drop_lanes(lanes: &Vec<AutomationLane>, key: &Vec<char>) -> (r: Vec<AutomationLane>)
    ensures
        lanes_view(r@) == lanes_view(lanes_without(lanes@, key@)),
        (forall|i: int| 0 <= i < lanes@.len() ==> (#[trigger] lanes@[i]).wf()) ==> forall|i: int|
            0 <= i < r@.len() ==> (#[trigger] r@[i]).wf(),
{
    let mut out: Vec<AutomationLane> = Vec::new();
    assert(lanes@.take(0) =~= seq![]);
    assert(lanes_view(out@) =~= lanes_view(lanes@.take(0)));
    let mut i: usize = 0;
    while i < lanes.len()
        invariant
            i <= lanes@.len(),
            lanes_view(out@) =~= lanes_view(lanes_without(lanes@.take(i as int), key@)),
            (forall|k: int| 0 <= k < lanes@.len() ==> (#[trigger] lanes@[k]).wf()) ==> forall|k: int|
                0 <= k < out@.len() ==> (#[trigger] out@[k]).wf(),
        decreases lanes.len() - i,
    {
        assert(lanes@.take(i + 1).drop_last() =~= lanes@.take(i as int));
        if !is_param(&lanes[i], key) {
            let ghost before = out@;
            let lane: AutomationLane = lanes[i].clone();
            let ghost rest = lanes_without(lanes@.take(i as int), key@);
            out.push(lane);
            assert(lanes_view(out@) =~= lanes_view(before).push((lane.param@, lane.points@)));
            assert(lanes_view(rest.push(lanes@[i as int])) =~= lanes_view(rest).push(
                (lane.param@, lane.points@),
            ));
        }
        i += 1;
    }
    assert(lanes@.take(i as int) =~= lanes@);
    out
}

/// Take the automation of a parameter off a clip.
pub fn clear_automation(p: &mut Project, clip: ClipRef, param: &str) -> (r: Result<(), String>)
    ensures
        clip_set(
            *old(p),
            *final(p),
            clip,
            r,
            (Clip {
                automation: the_clip(*final(p), clip).automation,
                ..the_clip(*old(p), clip)
            }),
        ),
        has_clip(*old(p), clip) ==> lanes_view(the_clip(*final(p), clip).automation@)
            == lanes_view(
            lanes_without(the_clip(*old(p), clip).automation@, text::keyed(param@)),
        ),
{
    let key: Vec<char> = text::key(param);
    let ghost before = *p;
    let (t, i): (usize, usize) = match find_clip(p, clip) {
        Ok(at) => at,
        Err(e) => {
            return Err(e);
        },
    };
    let rest: Vec<AutomationLane> = drop_lanes(&p.tracks[t].clips[i].automation, &key);
    p.tracks[t].clips[i].automation = rest;
    proof {
        assert(only_clip(before, *p, t as int, i as int));
        lemma_clip_changed(before, *p, t as int, i as int);
    }
    Ok(())
}

/// Set a point of a track's level automation.
pub fn set_level_point<K: Fn(Op, Width, u64, u64) -> u64>(c: &Calc<K>, p: &mut Project, track: i64, beat: F64, value: F64) -> (r: Result<(), String>)
    requires
        c.sound(),
        old(p).wf(),
        !beat.nan(),
    ensures
        if names(track, old(p).tracks@.len()) {
            &&& r is Ok
            &&& only_track(*old(p), *final(p), track as int)
            &&& final(p).tracks@[track as int] == Track {
                level_points: final(p).tracks@[track as int].level_points,
                ..old(p).tracks@[track as int]
            }
            &&& final(p).tracks@[track as int].level_points@ == with_point(
                c,
                old(p).tracks@[track as int].level_points@,
                beat,
                value.limit(double(0), double(0x4000_0000_0000_0000)),
            )
        } else {
            r is Err && r->Err_0@ == "no track "@ + text::signed_decimal(track as int) && *final(p)
                == *old(p)
        },
        final(p).wf(),
{
    let ghost before = *p;
    match place(track, p.tracks.len()) {
        None => Err(missing("no track ", track)),
        Some(t) => {
            assert(before.tracks@[t as int].wf());
            let mut lane: AutomationLane = AutomationLane {
                param: String::new(),
                points: p.tracks[t].level_points.clone(),
            };
            assert(lane.points@ =~= before.tracks@[t as int].level_points@);
            lane.set_point(c, beat, value.limit(double(0), double(0x4000_0000_0000_0000)));
            p.tracks[t].level_points = lane.points;
            proof {
                lemma_track_changed(before, *p, t as int);
            }
            Ok(())
        },
    }
}

/// Take the level automation off a track, where there is such a track.
pub fn clear_level_points(p: &mut Project, track: i64)
    ensures
        if names(track, old(p).tracks@.len()) {
            &&& only_track(*old(p), *final(p), track as int)
            &&& final(p).tracks@[track as int] == Track {
                level_points: final(p).tracks@[track as int].level_points,
                ..old(p).tracks@[track as int]
            }
            &&& final(p).tracks@[track as int].level_points@.len() == 0
        } else {
            *final(p) == *old(p)
        },
        old(p).wf() ==> final(p).wf(),
{
    let ghost before = *p;
    if let Some(t) = place(track, p.tracks.len()) {
        p.tracks[t].level_points.clear();
        proof {
            lemma_track_changed(before, *p, t as int);
        }
    }
}

// ---------------------------------------------------------------- sequencer

/// Add a pattern; its number.
pub fn add_pattern(p: &mut Project, name: &str) -> (r: i64)
    requires
        old(p).patterns@.len() <= i64::MAX,
    ensures
        r == old(p).patterns@.len(),
        final(p).patterns@.len() == r + 1,
        forall|i: int| 0 <= i < r ==> final(p).patterns@[i] == old(p).patterns@[i],
        final(p).patterns@[r as int].name@ == name@,
        final(p).patterns@[r as int].steps_per_beat == 4,
        final(p).patterns@[r as int].length_beats == double(0x4010_0000_0000_0000),
        final(p).patterns@[r as int].rows@.len() == 0,
        *final(p) == (Project { patterns: final(p).patterns, ..*old(p) }),
        old(p).wf() ==> final(p).wf(),
{
    let ghost before = *p;
    let i: usize = p.add_pattern(StepPattern::new(name));
    proof {
        if before.wf() {
            assert forall|k: int| 0 <= k < p.patterns@.len() implies (
            #[trigger] p.patterns@[k]).wf() by {
                if k < before.patterns@.len() {
                    assert(before.patterns@[k].wf());
                }
            }
        }
    }
    i as i64
}

/// Whether two projects are alike but for pattern `k`.
pub open spec fn only_pattern(before: Project, after: Project, k: int) -> bool {
    &&& after == Project { patterns: after.patterns, ..before }
    &&& after.patterns@.len() == before.patterns@.len()
    &&& forall|j: int|
        0 <= j < before.patterns@.len() && j != k ==> #[trigger] after.patterns@[j]
            == before.patterns@[j]
}

/// A change that keeps its part whole keeps the project whole.
pub proof fn lemma_pattern_changed(before: Project, after: Project, k: int)
    requires
        0 <= k < before.patterns@.len(),
        only_pattern(before, after, k),
        before.patterns@[k].wf() ==> after.patterns@[k].wf(),
    ensures
        before.wf() ==> after.wf(),
{
    if before.wf() {
        assert forall|j: int| 0 <= j < after.patterns@.len() implies (
        #[trigger] after.patterns@[j]).wf() by {
            assert(before.patterns@[j].wf());
        }
    }
}

/// What a pattern's grid becomes.
pub open spec fn regrid<K: Fn(Op, Width, u64, u64) -> u64>(c: &Calc<K>, before: StepPattern, after: StepPattern, length_beats: F64, steps_per_beat: u32) -> bool {
    &&& after.name == before.name
    &&& after.length_beats == length_beats.limit(double(0x3fd0_0000_0000_0000), double(0x4050_0000_0000_0000))
    &&& after.steps_per_beat == if steps_per_beat < 1 {
        1
    } else if steps_per_beat > 16 {
        16
    } else {
        steps_per_beat
    }
    &&& after.rows@.len() == before.rows@.len()
    &&& forall|i: int|
        0 <= i < before.rows@.len() ==> regridded(
            before.rows@[i],
            #[trigger] after.rows@[i],
            crate::seq::grid_steps(c, before.length_beats, before.steps_per_beat) as int,
            crate::seq::grid_steps(c, after.length_beats, after.steps_per_beat) as int,
        )
}

/// Change a pattern's grid.
pub fn set_pattern_grid<K: Fn(Op, Width, u64, u64) -> u64>(c: &Calc<K>, p: &mut Project, pid: i64, length_beats: F64, steps_per_beat: i64) -> (r: Result<(), String>)
    requires
        c.sound(),
    ensures
        if names(pid, old(p).patterns@.len()) {
            &&& r is Ok
            &&& only_pattern(*old(p), *final(p), pid as int)
            &&& regrid(
                c,
                old(p).patterns@[pid as int],
                final(p).patterns@[pid as int],
                length_beats,
                steps_per_beat as u32,
            )
        } else {
            r is Err && r->Err_0@ == "no pattern "@ + text::signed_decimal(pid as int) && *final(p)
                == *old(p)
        },
        old(p).wf() ==> final(p).wf(),
{
    let ghost before = *p;
    match place(pid, p.patterns.len()) {
        None => Err(missing("no pattern ", pid)),
        Some(k) => {
            p.patterns[k].set_grid(c, length_beats, steps_per_beat as u32);
            proof {
                let a = before.patterns@[k as int];
                let b = p.patterns@[k as int];
                if a.wf() {
                    assert forall|i: int| 0 <= i < b.rows@.len() implies (
                    #[trigger] b.rows@[i]).wf() by {
                        assert(a.rows@[i].wf());
                    }
                }
                lemma_pattern_changed(before, *p, k as int);
            }
            Ok(())
        },
    }
}

/// Add a row to a pattern; its number.
pub fn add_row<K: Fn(Op, Width, u64, u64) -> u64>(c: &Calc<K>, p: &mut Project, pid: i64, source: i64) -> (r: Result<i64, String>)
    requires
        c.sound(),
        names(pid, old(p).patterns@.len()) ==> old(p).patterns@[pid as int].rows@.len() <= i64::MAX,
    ensures
        if !names(source, old(p).sources@.len()) {
            r is Err && r->Err_0@ == "no source "@ + text::signed_decimal(source as int)
                && *final(p) == *old(p)
        } else if !names(pid, old(p).patterns@.len()) {
            r is Err && r->Err_0@ == "no pattern "@ + text::signed_decimal(pid as int) && *final(p)
                == *old(p)
        } else {
            let a = old(p).patterns@[pid as int];
            let b = final(p).patterns@[pid as int];
            &&& r is Ok
            &&& r->Ok_0 == a.rows@.len()
            &&& only_pattern(*old(p), *final(p), pid as int)
            &&& b == StepPattern { rows: b.rows, ..a }
            &&& b.rows@.len() == a.rows@.len() + 1
            &&& forall|i: int| 0 <= i < a.rows@.len() ==> b.rows@[i] == a.rows@[i]
            &&& ({
                let row = b.rows@[r->Ok_0 as int];
                &&& row.source == source
                &&& row.grains == row_preset()
                &&& row.key is None
                &&& row.steps@ == Seq::new(
                    crate::seq::grid_steps(c, a.length_beats, a.steps_per_beat) as nat,
                    |i: int| Step::off(),
                )
                &&& row.mode == RowMode::Steps
                &&& row.loop_start == single(0)
                &&& row.loop_end == single(0x3f80_0000)
            })
        },
        old(p).wf() ==> final(p).wf(),
{
    let ghost before = *p;
    let s: usize = match place(source, p.sources.len()) {
        Some(s) => s,
        None => {
            return Err(missing("no source ", source));
        },
    };
    match place(pid, p.patterns.len()) {
        None => Err(missing("no pattern ", pid)),
        Some(k) => {
            let n: usize = p.patterns[k].add_row(c, s);
            proof {
                let a = before.patterns@[k as int];
                let b = p.patterns@[k as int];
                if a.wf() {
                    assert forall|i: int| 0 <= i < b.rows@.len() implies (
                    #[trigger] b.rows@[i]).wf() by {
                        if i < a.rows@.len() {
                            assert(a.rows@[i].wf());
                        }
                    }
                }
                lemma_pattern_changed(before, *p, k as int);
            }
            Ok(n as i64)
        },
    }
}

/// Whether a command on a row did what it should: the row is there and became `next`, or
/// it is not and nothing changed.
pub open spec fn row_is(before: Project, after: Project, pid: i64, row: i64, r: Result<(), String>, next: SeqRow) -> bool {
    if has_row(before, pid, row) {
        &&& r is Ok
        &&& only_row(before, after, pid as int, row as int)
        &&& the_row(after, pid, row) == next
        &&& before.wf() ==> after.wf()
    } else {
        r is Err && r->Err_0@ == no_row(pid, row) && after == before
    }
}

/// A change that keeps its part whole keeps the project whole.
pub proof fn lemma_row_changed(before: Project, after: Project, p: int, i: int)
    requires
        0 <= p < before.patterns@.len(),
        0 <= i < before.patterns@[p].rows@.len(),
        only_row(before, after, p, i),
        before.patterns@[p].rows@[i].wf() ==> after.patterns@[p].rows@[i].wf(),
    ensures
        before.wf() ==> after.wf(),
{
    if before.wf() {
        assert(before.patterns@[p].wf());
        assert(before.patterns@[p].rows@[i].wf());
        lemma_row_wf(before, after, p, i);
    }
}

/// Set a grain parameter of a row by name.
pub fn set_row_param<K: Fn(Op, Width, u64, u64) -> u64>(c: &Calc<K>, p: &mut Project, pid: i64, row: i64, prop: &str, value: F64) -> (r: Result<(), String>)
    requires
        c.sound(),
    ensures
        match grain_set(c, the_row(*old(p), pid, row).grains, text::keyed(prop@), value) {
            Some(grains) => row_is(
                *old(p),
                *final(p),
                pid,
                row,
                r,
                (SeqRow { grains, ..the_row(*old(p), pid, row) }),
            ),
            None => r is Err && *final(p) == *old(p) && r->Err_0@ == if has_row(*old(p), pid, row) {
                "unknown row parameter '"@ + prop@ + "'"@
            } else {
                no_row(pid, row)
            },
        },
{
    let key: Vec<char> = text::key(prop);
    let name: String = text::text_of(&key);
    let ghost before = *p;
    let (k, i): (usize, usize) = match find_row(p, pid, row) {
        Ok(at) => at,
        Err(e) => {
            return Err(e);
        },
    };
    let mut grains: GrainSettings = p.patterns[k].rows[i].grains;
    match grains.set_param(c, name.as_str(), value) {
        Ok(()) => {
            p.patterns[k].rows[i].grains = grains;
            proof {
                lemma_row_changed(before, *p, k as int, i as int);
            }
            Ok(())
        },
        Err(()) => Err(quoted("unknown row parameter '", prop)),
    }
}

/// Quantize a row's pitches onto a key.
pub fn set_row_key(p: &mut Project, pid: i64, row: i64, root: &str, scale: &str) -> (r: Result<(), String>)
    ensures
        if key_of(root@, scale@) is None {
            r is Err && r->Err_0@ == "bad key: "@ + root@ + " "@ + scale@ && *final(p) == *old(p)
        } else {
            row_is(
                *old(p),
                *final(p),
                pid,
                row,
                r,
                (SeqRow { key: key_of(root@, scale@), ..the_row(*old(p), pid, row) }),
            )
        },
{
    let key: Key = match Key::parse(root, scale) {
        Some(k) => k,
        None => {
            let mut e: String = text::join3("bad key: ", root, " ");
            e.append(scale);
            return Err(e);
        },
    };
    let ghost before = *p;
    let (k, i): (usize, usize) = match find_row(p, pid, row) {
        Ok(at) => at,
        Err(e) => {
            return Err(e);
        },
    };
    p.patterns[k].rows[i].key = Some(key);
    proof {
        lemma_row_changed(before, *p, k as int, i as int);
    }
    Ok(())
}

/// What changing a step of a row gives: its steps after it, or what is wrong.
pub open spec fn steps_set(steps: Seq<Step>, idx: i64, step: Step) -> Result<Seq<Step>, Seq<char>> {
    if names(idx, steps.len()) {
        Ok(steps.update(idx as int, step))
    } else {
        Err("no step "@ + text::signed_decimal(idx as int))
    }
}

/// Whether a command on a step did what it should.
pub open spec fn step_is(before: Project, after: Project, pid: i64, row: i64, idx: i64, r: Result<(), String>, step: Step) -> bool {
    if has_row(before, pid, row) {
        match steps_set(the_row(before, pid, row).steps@, idx, step) {
            Ok(steps) => {
                &&& row_is(
                    before,
                    after,
                    pid,
                    row,
                    r,
                    SeqRow { steps: the_row(after, pid, row).steps, ..the_row(before, pid, row) },
                )
                &&& the_row(after, pid, row).steps@ == steps
            },
            Err(e) => r is Err && r->Err_0@ == e && after == before,
        }
    } else {
        r is Err && r->Err_0@ == no_row(pid, row) && after == before
    }
}

/// The step of a row, where it is there.
pub open spec fn the_step(p: Project, pid: i64, row: i64, idx: i64) -> Step {
    the_row(p, pid, row).steps@[idx as int]
}

/// Turn a step on or off.
pub fn set_step(p: &mut Project, pid: i64, row: i64, idx: i64, on: bool) -> (r: Result<(), String>)
    ensures
        step_is(
            *old(p),
            *final(p),
            pid,
            row,
            idx,
            r,
            (Step { on, ..the_step(*old(p), pid, row, idx) }),
        ),
{
    let ghost before = *p;
    let (k, i): (usize, usize) = match find_row(p, pid, row) {
        Ok(at) => at,
        Err(e) => {
            return Err(e);
        },
    };
    let m: usize = match place(idx, p.patterns[k].rows[i].steps.len()) {
        Some(m) => m,
        None => {
            return Err(missing("no step ", idx));
        },
    };
    let mut step: Step = p.patterns[k].rows[i].steps[m];
    step.on = on;
    p.patterns[k].rows[i].steps.set(m, step);
    proof {
        assert(only_row(before, *p, k as int, i as int));
        lemma_row_changed(before, *p, k as int, i as int);
    }
    Ok(())
}

/// Set a step's semitone offset, within -48..=48.
pub fn set_step_pitch<K: Fn(Op, Width, u64, u64) -> u64>(c: &Calc<K>, p: &mut Project, pid: i64, row: i64, idx: i64, semitones: F64) -> (r: Result<(), String>)
    requires
        c.sound(),
    ensures
        step_is(
            *old(p),
            *final(p),
            pid,
            row,
            idx,
            r,
            (Step { pitch: semitones.to_f32(c).limit(single(0xc240_0000), single(0x4240_0000)), ..the_step(*old(p), pid, row, idx) }),
        ),
{
    let ghost before = *p;
    let (k, i): (usize, usize) = match find_row(p, pid, row) {
        Ok(at) => at,
        Err(e) => {
            return Err(e);
        },
    };
    let m: usize = match place(idx, p.patterns[k].rows[i].steps.len()) {
        Some(m) => m,
        None => {
            return Err(missing("no step ", idx));
        },
    };
    let mut step: Step = p.patterns[k].rows[i].steps[m];
    step.pitch = semitones.to_f32(c).limit(single(0xc240_0000), single(0x4240_0000));
    p.patterns[k].rows[i].steps.set(m, step);
    proof {
        assert(only_row(before, *p, k as int, i as int));
        lemma_row_changed(before, *p, k as int, i as int);
    }
    Ok(())
}

/// Set a step's gain, within 0..=2.
pub fn set_step_gain<K: Fn(Op, Width, u64, u64) -> u64>(c: &Calc<K>, p: &mut Project, pid: i64, row: i64, idx: i64, gain: F64) -> (r: Result<(), String>)
    requires
        c.sound(),
    ensures
        step_is(
            *old(p),
            *final(p),
            pid,
            row,
            idx,
            r,
            (Step { gain: gain.to_f32(c).limit(single(0), single(0x4000_0000)), ..the_step(*old(p), pid, row, idx) }),
        ),
{
    let ghost before = *p;
    let (k, i): (usize, usize) = match find_row(p, pid, row) {
        Ok(at) => at,
        Err(e) => {
            return Err(e);
        },
    };
    let m: usize = match place(idx, p.patterns[k].rows[i].steps.len()) {
        Some(m) => m,
        None => {
            return Err(missing("no step ", idx));
        },
    };
    let mut step: Step = p.patterns[k].rows[i].steps[m];
    step.gain = gain.to_f32(c).limit(single(0), single(0x4000_0000));
    p.patterns[k].rows[i].steps.set(m, step);
    proof {
        assert(only_row(before, *p, k as int, i as int));
        lemma_row_changed(before, *p, k as int, i as int);
    }
    Ok(())
}

/// Set a row's own step count, within 1..=128.
pub fn set_row_steps(p: &mut Project, pid: i64, row: i64, n: i64) -> (r: Result<(), String>)
    ensures
        row_is(
            *old(p),
            *final(p),
            pid,
            row,
            r,
            (SeqRow { steps: the_row(*final(p), pid, row).steps, ..the_row(*old(p), pid, row) }),
        ),
        has_row(*old(p), pid, row) ==> the_row(*final(p), pid, row).steps@ == resized(
            the_row(*old(p), pid, row).steps@,
            if n < 1 {
                1
            } else if n > 128 {
                128
            } else {
                n as int
            },
        ),
{
    let ghost before = *p;
    let (k, i): (usize, usize) = match find_row(p, pid, row) {
        Ok(at) => at,
        Err(e) => {
            return Err(e);
        },
    };
    let m: usize = if n < 1 {
        1
    } else if n > 128 {
        128
    } else {
        n as usize
    };
    p.patterns[k].rows[i].set_steps(m);
    proof {
        lemma_row_changed(before, *p, k as int, i as int);
    }
    Ok(())
}

/// The end of a loop row's segment: past its start by at least a hundredth.
#[verifier::allow_in_spec]
pub fn loop_end_of<K: Fn(Op, Width, u64, u64) -> u64>(c: &Calc<K>, start: F64, end: F64) -> F32
    requires
        c.sound(),
    returns
        (end.to_f32(c).limit(single(0), single(0x3f80_0000)).max(start.to_f32(c).limit(single(0), single(0x3f80_0000)).add(c, single(0x3c23_d70a)))),
{
    end.to_f32(c).limit(single(0), single(0x3f80_0000)).max(start.to_f32(c).limit(single(0), single(0x3f80_0000)).add(c, single(0x3c23_d70a)))
}

/// Let a row loop a segment of its source.
pub fn set_row_loop<K: Fn(Op, Width, u64, u64) -> u64>(c: &Calc<K>, p: &mut Project, pid: i64, row: i64, start: F64, end: F64) -> (r: Result<(), String>)
    requires
        c.sound(),
    ensures
        row_is(
            *old(p),
            *final(p),
            pid,
            row,
            r,
            (SeqRow {
                mode: RowMode::Loop,
                loop_start: start.to_f32(c).limit(single(0), single(0x3f80_0000)),
                loop_end: loop_end_of(c, start, end),
                ..the_row(*old(p), pid, row)
            }),
        ),
{
    let ghost before = *p;
    let (k, i): (usize, usize) = match find_row(p, pid, row) {
        Ok(at) => at,
        Err(e) => {
            return Err(e);
        },
    };
    p.patterns[k].rows[i].mode = RowMode::Loop;
    p.patterns[k].rows[i].loop_start = start.to_f32(c).limit(single(0), single(0x3f80_0000));
    p.patterns[k].rows[i].loop_end = loop_end_of(c, start, end);
    proof {
        lemma_row_changed(before, *p, k as int, i as int);
    }
    Ok(())
}

/// Let a row play its steps.
pub fn set_row_steps_mode(p: &mut Project, pid: i64, row: i64) -> (r: Result<(), String>)
    ensures
        row_is(
            *old(p),
            *final(p),
            pid,
            row,
            r,
            (SeqRow { mode: RowMode::Steps, ..the_row(*old(p), pid, row) }),
        ),
{
    let ghost before = *p;
    let (k, i): (usize, usize) = match find_row(p, pid, row) {
        Ok(at) => at,
        Err(e) => {
            return Err(e);
        },
    };
    p.patterns[k].rows[i].mode = RowMode::Steps;
    proof {
        lemma_row_changed(before, *p, k as int, i as int);
    }
    Ok(())
}

// ------------------------------------------------------------------- render

/// What a render is saved as.
#[derive(Clone, Copy, Debug, PartialEq, Eq, Structural)]
pub enum RenderTarget {
    /// The sound alone.
    Wav,
    /// The middle frame.
    Png,
    /// Frames and sound.
    Video,
}

/// What a render is saved as, by the file's extension.
pub fn render_target(extension: &str) -> (r: RenderTarget)
    ensures
        r == if text::lowered(extension@) == "wav"@ {
            RenderTarget::Wav
        } else if text::lowered(extension@) == "png"@ {
            RenderTarget::Png
        } else {
            RenderTarget::Video
        },
{
    let e: Vec<char> = text::to_lowered(extension);
    if text::spells(&e, "wav") {
        RenderTarget::Wav
    } else if text::spells(&e, "png") {
        RenderTarget::Png
    } else {
        RenderTarget::Video
    }
}

/// Whether a source was added at the end, and nothing else changed.
pub open spec fn source_added(before: Project, after: Project, r: i64) -> bool {
    &&& r == before.sources@.len()
    &&& after.sources@.len() == r + 1
    &&& forall|i: int| 0 <= i < r ==> after.sources@[i] == before.sources@[i]
    &&& after.same_but_sources(before)
    &&& before.wf() ==> after.wf()
}

/// Add a test tone; its number.
pub fn add_sine_source<K: Fn(Op, Width, u64, u64) -> u64>(c: &Calc<K>, p: &mut Project, freq: F64, secs: F64) -> (r: i64)
    requires
        c.sound(),
        old(p).sources@.len() <= i64::MAX,
    ensures
        source_added(*old(p), *final(p), r),
        ({
            let s = final(p).sources@[r as int];
            let n = samples_in(c, secs.to_f32(c), old(p).sample_rate);
            &&& s.name@ == "sine "@ + fixed_double(freq, 0) + "Hz"@
            &&& s.base_hz == freq.to_f32(c)
            &&& s.video is None
            &&& s.audio is Some
            &&& s.audio->0.sample_rate == old(p).sample_rate
            &&& s.audio->0.samples@ == Seq::new(
                n as nat,
                |i: int| sine_sample(c, freq.to_f32(c), old(p).sample_rate, i as u64, n as u64),
            )
        }),
{
    let mut name: String = "sine ".to_owned();
    push_double(&mut name, freq, 0);
    name.append("Hz");
    let audio: AudioClip = AudioClip::sine(c, freq.to_f32(c), secs.to_f32(c), p.sample_rate);
    let s: Source = Source {
        name,
        audio: Some(Arc::new(audio)),
        video: None,
        base_hz: freq.to_f32(c),
    };
    add_source(p, s)
}

/// The length of a synth source that was asked for.
#[verifier::allow_in_spec]
pub fn synth_secs<K: Fn(Op, Width, u64, u64) -> u64>(c: &Calc<K>, secs: F64) -> F32
    requires
        c.sound(),
    returns
        (secs.to_f32(c).limit(single(0x3dcc_cccd), single(0x41f0_0000))),
{
    secs.to_f32(c).limit(single(0x3dcc_cccd), single(0x41f0_0000))
}

/// Add an FM source; its number.
pub fn add_fm_source<K: Fn(Op, Width, u64, u64) -> u64>(c: &Calc<K>, p: &mut Project, base_hz: F64, ratio: F64, index: F64, secs: F64) -> (r: i64)
    requires
        c.sound(),
        old(p).sources@.len() <= i64::MAX,
        samples_in(c, synth_secs(c, secs), old(p).sample_rate) > 0,
    ensures
        source_added(*old(p), *final(p), r),
        ({
            let s = final(p).sources@[r as int];
            let hz = base_hz.to_f32(c).limit(single(0x41a0_0000), single(0x457a_0000));
            let by = ratio.to_f32(c).limit(single(0x3c23_d70a), single(0x4180_0000));
            let depth = index.to_f32(c).limit(single(0), single(0x4120_0000));
            &&& s.name@ == fm_name(hz, by, depth)
            &&& s.base_hz == hz
            &&& synth_media(
                c,
                s,
                fm_tone(c, hz, by, depth, synth_secs(c, secs), old(p).sample_rate),
                old(p).sample_rate,
            )
        }),
{
    let s: Source = fm_source(
        c,
        base_hz.to_f32(c).limit(single(0x41a0_0000), single(0x457a_0000)),
        ratio.to_f32(c).limit(single(0x3c23_d70a), single(0x4180_0000)),
        index.to_f32(c).limit(single(0), single(0x4120_0000)),
        synth_secs(c, secs),
        p.sample_rate,
    );
    add_source(p, s)
}

/// Add a noise source; its number.
pub fn add_noise_source<K: Fn(Op, Width, u64, u64) -> u64>(c: &Calc<K>, p: &mut Project, color: F64, secs: F64) -> (r: i64)
    requires
        c.sound(),
        old(p).sources@.len() <= i64::MAX,
        samples_in(c, synth_secs(c, secs), old(p).sample_rate) > 0,
    ensures
        source_added(*old(p), *final(p), r),
        ({
            let s = final(p).sources@[r as int];
            let tilt = color.to_f32(c).limit(single(0), single(0x3f80_0000));
            &&& s.name@ == "noise c"@ + fixed_single(tilt, 2)
            &&& s.base_hz == single(0)
            &&& synth_media(
                c,
                s,
                noise_tone(c, tilt, synth_secs(c, secs), old(p).sample_rate),
                old(p).sample_rate,
            )
        }),
{
    let s: Source = noise_source(
        c,
        color.to_f32(c).limit(single(0), single(0x3f80_0000)),
        synth_secs(c, secs),
        p.sample_rate,
    );
    add_source(p, s)
}

/// What a script prints goes to the end of the log, on a line of its own.
pub fn print_line(log: &mut String, text: &str)
    ensures
        final(log)@ == old(log)@ + text@ + "\n"@,
{
    log.append(text);
    log.append("\n");
}

/// What the log says of a render.
pub fn render_line<K: Fn(Op, Width, u64, u64) -> u64>(c: &Calc<K>, audio: &StereoBuffer, frames: usize, path: &str) -> (r: String)
    requires
        c.sound(),
        audio.wf(),
        audio.left@.len() + audio.right@.len() <= usize::MAX,
    ensures
        r@ == "rendered "@ + fixed_double(
            F64::of_count(c, audio.left@.len() as u64).div(
                c,
                F64::of_count(c, audio.sample_rate as u64),
            ),
            1,
        ) + "s ("@ + text::decimal(frames as nat) + " frames, rms "@ + fixed_single(
            stereo_rms(c, audio.left@, audio.right@),
            3,
        ) + ") -> "@ + path@ + "\n"@,
{
    let mut line: String = "rendered ".to_owned();
    push_double(&mut line, audio.duration(c), 1);
    line.append("s (");
    text::push_decimal(&mut line, frames as u64);
    line.append(" frames, rms ");
    push_single(&mut line, audio.rms(c), 3);
    line.append(") -> ");
    line.append(path);
    line.append("\n");
    line
}

// --------------------------------------------------------------------- laws

/// A refused command changes nothing, and one that is carried out leaves every other
/// clip as it was.
pub proof fn law_other_clips_are_kept(before: Project, after: Project, c: ClipRef, r: Result<(), String>, clip: Clip, o: ClipRef)
    requires
        clip_set(before, after, c, r, clip),
        has_clip(before, o),
        o != c,
    ensures
        has_clip(after, o),
        the_clip(after, o) == the_clip(before, o),
{
}

/// A clip just placed is the one that its handle names.
pub proof fn law_handles_name_their_clip(before: Project, after: Project, track: i64, clip: Clip)
    requires
        names(track, before.tracks@.len()),
        before.tracks@[track as int].clips@.len() <= i64::MAX,
        clip_placed(before, after, track as int, clip),
    ensures
        ({
            let c = ClipRef { track, index: before.tracks@[track as int].clips@.len() as i64 };
            has_clip(after, c) && the_clip(after, c) == clip
        }),
{
}

} // verus!
