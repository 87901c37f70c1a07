//! Offline renderer: walk the timeline, schedule events per clip (grain
//! clouds, snippets, or step-pattern hits), and feed the SAME events to
//! the audio renderer and video compositor.
//!
//! Signal flow, both domains:
//!   clip (events -> clip fx chain)
//!     -> track (stack clips -> track fx chain -> level / opacity)
//!       -> master (sum / composite in track order -> master fx chain)
//!
//! Track order is the video z-order: later tracks composite on top.
use crate::audio::{left_mixed, render_grains_audio, right_mixed, soft_clipped, AudioClip, StereoBuffer};
use crate::calc::{Calc, Op, Width};
use crate::dsp::{chain_filtered, FilterSpec};
use crate::fx::AvEffect;
use crate::fx_audio::{apply_audio_chain, latency_fits, rendered_chain};
use crate::fx_video::{
    apply_video_chain, chain_frame, fresh_video_states, states_cover, video_chain_states,
    video_states_view, video_states_wf, VideoFxState, VideoFxView,
};
use crate::grain::{cloud, grain_end, schedule_grains_auto, GrainEvent, GrainSettings, Span};
use crate::music::semitones_to_ratio;
use crate::num::{double, single, F32, F64};
use crate::seq::{parts_view, pattern_events, pattern_parts, PatternSpan};
use crate::spectral::zeros;
use crate::timeline::{level_opacity, secs_of_beats, Clip, ClipKind, Project, Source, Track};
use crate::video::{
    blend_layer, blend_layer_over, composite_grains_frame, draws_of, layer_blended,
    layer_composited, layers_stacked, look_at, plain, Frame, Image, Rgba, VisualGrainStyle,
};
use vstd::prelude::*;

verus! {

// --------------------------------------------------------------------- plan

/// The scheduled events for one clip: (source, events) groups, since a
/// pattern clip's rows can pull from different sources.
#[derive(Debug)]
pub struct ClipPlan {
    pub track: usize,
    pub clip_index: usize,
    pub parts: Vec<(usize, Vec<GrainEvent>)>,
    pub style: VisualGrainStyle,
}

/// What is scheduled for one clip.
pub struct PlanView {
    pub track: int,
    pub clip: int,
    pub parts: Seq<(usize, Seq<GrainEvent>)>,
    pub style: VisualGrainStyle,
}

impl View for ClipPlan {
    type V = PlanView;

    open spec fn view(&self) -> PlanView {
        PlanView {
            track: self.track as int,
            clip: self.clip_index as int,
            parts: parts_view(self.parts@),
            style: self.style,
        }
    }
}

/// What is scheduled for a run of clips.
pub open spec fn plan_view(plan: Seq<ClipPlan>) -> Seq<PlanView> {
    plan.map_values(|p: ClipPlan| p@)
}

/// The single event a snippet clip plays: the source as ONE grain, so all
/// correspondence machinery applies.
pub open spec fn snippet<K: Fn(Op, Width, u64, u64) -> u64>(c: &Calc<K>, clip: Clip, source: Source, clip_t0: F64, clip_len: F64) -> GrainEvent {
    let g = clip.grains;
    let raw = semitones_to_ratio(c, g.pitch);
    GrainEvent {
        onset: clip_t0,
        source_pos: g.position.to_f64(c).mul(c, source.lasts(c)).min(source.lasts(c)),
        duration: clip_len.to_f32(c),
        pitch_ratio: match clip.key {
            Some(key) => key.tuned(c, source.tuned_hz(), raw),
            None => raw,
        },
        gain: g.gain,
        pan: g.pan.limit(single(0xbf80_0000), single(0x3f80_0000)),
        envelope: g.envelope,
        env_skew: g.env_skew,
        reverse: single(0x3f00_0000).le(g.reverse_prob),
        id: g.seed,
    }
}

fn snippet_event<K: Fn(Op, Width, u64, u64) -> u64>(c: &Calc<K>, clip: &Clip, source: &Source, clip_t0: F64, clip_len: F64) -> (r: GrainEvent)
    requires
        c.sound(),
        clip.wf(),
    ensures
        r == snippet(c, *clip, *source, clip_t0, clip_len),
{
    let g: GrainSettings = clip.grains;
    let source_len: F64 = source.duration(c);
    let mut ratio: F32 = semitones_to_ratio(c, g.pitch);
    if let Some(key) = clip.key {
        ratio = key.quantize_ratio(c, source.effective_base_hz(), ratio);
    }
    GrainEvent {
        onset: clip_t0,
        source_pos: g.position.to_f64(c).mul(c, source_len).min(source_len),
        duration: clip_len.to_f32(c),
        pitch_ratio: ratio,
        gain: g.gain,
        pan: g.pan.limit(single(0xbf80_0000), single(0x3f80_0000)),
        envelope: g.envelope,
        env_skew: g.env_skew,
        reverse: single(0x3f00_0000).le(g.reverse_prob),
        id: g.seed,
    }
}

/// The length of a beat at a tempo, seconds.
#[verifier::allow_in_spec]
pub fn beat_secs<K: Fn(Op, Width, u64, u64) -> u64>(c: &Calc<K>, bpm: F64) -> F64
    requires
        c.sound(),
    returns
        (double(0x404e_0000_0000_0000).div(c, bpm)),
{
    double(0x404e_0000_0000_0000).div(c, bpm)
}

/// Whether a clip's source is there and has something in it.
pub open spec fn has_source<K: Fn(Op, Width, u64, u64) -> u64>(c: &Calc<K>, project: Project, clip: Clip) -> bool {
    clip.source < project.sources@.len() && !project.sources@[clip.source as int].lasts(c).le(
        double(0),
    )
}

/// What a clip plays; `None` where its source or pattern is missing.
pub open spec fn clip_parts<K: Fn(Op, Width, u64, u64) -> u64>(c: &Calc<K>, project: Project, clip: Clip) -> Option<Seq<(usize, Seq<GrainEvent>)>> {
    let t0 = secs_of_beats(c, project.bpm, clip.start_beat);
    let len = secs_of_beats(c, project.bpm, clip.length_beats);
    let spb = beat_secs(c, project.bpm);
    match clip.kind {
        ClipKind::Granular => if has_source(c, project, clip) {
            let source = project.sources@[clip.source as int];
            let span = Span {
                start: t0,
                len,
                secs_per_beat: spb,
                source_len: source.lasts(c),
                base_hz: source.tuned_hz(),
                key: clip.key,
            };
            Some(seq![(clip.source, cloud(c, span, clip.grains, clip.automation@))])
        } else {
            None
        },
        ClipKind::Snippet => if has_source(c, project, clip) {
            let source = project.sources@[clip.source as int];
            Some(seq![(clip.source, seq![snippet(c, clip, source, t0, len)])])
        } else {
            None
        },
        ClipKind::Pattern(pid) => if pid < project.patterns@.len() {
            Some(
                pattern_parts(
                    c,
                    project.patterns@[pid as int],
                    project.sources@,
                    PatternSpan { start: t0, len, secs_per_beat: spb, key: clip.key },
                    clip.automation@,
                ),
            )
        } else {
            None
        },
    }
}

/// How a clip's grains are drawn: a snippet fills the frame.
pub open spec fn clip_style(clip: Clip) -> VisualGrainStyle {
    match clip.kind {
        ClipKind::Snippet => VisualGrainStyle {
            size_scale: single(0x447a_0000),
            min_size: single(0x3f80_0000),
            max_size: single(0x3f80_0000),
            additive: clip.visual.additive,
            scatter_y: single(0),
        },
        _ => clip.visual,
    }
}

/// What is scheduled for the first `n` clips of a track.
pub open spec fn planned_clips<K: Fn(Op, Width, u64, u64) -> u64>(c: &Calc<K>, project: Project, ti: int, n: int) -> Seq<PlanView>
    decreases n,
{
    if n <= 0 {
        seq![]
    } else {
        let before = planned_clips(c, project, ti, n - 1);
        let clip = project.tracks@[ti].clips@[n - 1];
        match clip_parts(c, project, clip) {
            Some(parts) => before.push(
                PlanView { track: ti, clip: n - 1, parts, style: clip_style(clip) },
            ),
            None => before,
        }
    }
}

/// What is scheduled for the first `n` tracks.
pub open spec fn planned_tracks<K: Fn(Op, Width, u64, u64) -> u64>(c: &Calc<K>, project: Project, n: int) -> Seq<PlanView>
    decreases n,
{
    if n <= 0 {
        seq![]
    } else {
        planned_tracks(c, project, n - 1) + planned_clips(
            c,
            project,
            n - 1,
            project.tracks@[n - 1].clips@.len() as int,
        )
    }
}

/// Everything that a project plays.
pub open spec fn planned<K: Fn(Op, Width, u64, u64) -> u64>(c: &Calc<K>, project: Project) -> Seq<PlanView> {
    planned_tracks(c, project, project.tracks@.len() as int)
}

/// Whether every entry of a plan names a clip of the project.
pub open spec fn plan_fits(project: Project, plan: Seq<PlanView>) -> bool {
    forall|i: int|
        0 <= i < plan.len() ==> 0 <= (#[trigger] plan[i]).track < project.tracks@.len() && 0
            <= plan[i].clip < project.tracks@[plan[i].track].clips@.len()
}

fn plan_clip<K: Fn(Op, Width, u64, u64) -> u64>(c: &Calc<K>, project: &Project, clip: &Clip) -> (r: Option<Vec<(usize, Vec<GrainEvent>)>>)
    requires
        c.sound(),
        project.wf(),
        clip.wf(),
    ensures
        match clip_parts(c, *project, *clip) {
            Some(parts) => r is Some && parts_view(r->0@) == parts,
            None => r is None,
        },
{
    let t0: F64 = project.beats_to_secs(c, clip.start_beat);
    let len: F64 = project.beats_to_secs(c, clip.length_beats);
    let spb: F64 = beat_secs(c, project.bpm);
    match clip.kind {
        ClipKind::Granular => {
            if clip.source >= project.sources.len() {
                return None;
            }
            let source: &Source = &project.sources[clip.source];
            if source.duration(c).le(double(0)) {
                return None;
            }
            let events: Vec<GrainEvent> = schedule_grains_auto(
                c,
                &clip.grains,
                &clip.automation,
                spb,
                t0,
                len,
                source.duration(c),
                source.effective_base_hz(),
                clip.key,
            );
            let ghost evs = events@;
            let mut parts: Vec<(usize, Vec<GrainEvent>)> = Vec::new();
            parts.push((clip.source, events));
            assert(parts_view(parts@) =~= seq![(clip.source, evs)]);
            Some(parts)
        },
        ClipKind::Snippet => {
            if clip.source >= project.sources.len() {
                return None;
            }
            let source: &Source = &project.sources[clip.source];
            if source.duration(c).le(double(0)) {
                return None;
            }
            let ev: GrainEvent = snippet_event(c, clip, source, t0, len);
            let mut events: Vec<GrainEvent> = Vec::new();
            events.push(ev);
            assert(events@ =~= seq![ev]);
            let ghost evs = events@;
            let mut parts: Vec<(usize, Vec<GrainEvent>)> = Vec::new();
            parts.push((clip.source, events));
            assert(parts_view(parts@) =~= seq![(clip.source, evs)]);
            Some(parts)
        },
        ClipKind::Pattern(pid) => {
            if pid >= project.patterns.len() {
                return None;
            }
            assert(project.patterns@[pid as int].wf());
            Some(
                pattern_events(
                    c,
                    &project.patterns[pid],
                    &project.sources,
                    t0,
                    len,
                    spb,
                    clip.key,
                    &clip.automation,
                ),
            )
        },
    }
}

fn style_of(clip: &Clip) -> (r: VisualGrainStyle)
    ensures
        r == clip_style(*clip),
{
    match clip.kind {
        ClipKind::Snippet => VisualGrainStyle::full_frame(clip.visual.additive),
        _ => clip.visual,
    }
}

/// Schedule every clip in the project (absolute timeline seconds). Shared
/// by the offline renderer, the realtime engine, and live previews.
pub fn plan_project<K: Fn(Op, Width, u64, u64) -> u64>(c: &Calc<K>, project: &Project) -> (r: Vec<ClipPlan>)
    requires
        c.sound(),
        project.wf(),
    ensures
        plan_view(r@) == planned(c, *project),
        plan_fits(*project, plan_view(r@)),
{
    let mut plans: Vec<ClipPlan> = Vec::new();
    assert(plan_view(plans@) =~= seq![]);
    let mut ti: usize = 0;
    while ti < project.tracks.len()
        invariant
            c.sound(),
            project.wf(),
            ti <= project.tracks@.len(),
            plan_view(plans@) == planned_tracks(c, *project, ti as int),
            plan_fits(*project, plan_view(plans@)),
        decreases project.tracks.len() - ti,
    {
        let clips: &Vec<Clip> = &project.tracks[ti].clips;
        let ghost done = plan_view(plans@);
        assert(project.tracks@[ti as int].wf());
        assert(done + planned_clips(c, *project, ti as int, 0) =~= done);
        let mut ci: usize = 0;
        while ci < clips.len()
            invariant
                c.sound(),
                project.wf(),
                ti < project.tracks@.len(),
                project.tracks@[ti as int].wf(),
                *clips == project.tracks@[ti as int].clips,
                ci <= clips@.len(),
                plan_view(plans@) =~= done + planned_clips(c, *project, ti as int, ci as int),
                plan_fits(*project, plan_view(plans@)),
            decreases clips.len() - ci,
        {
            assert(project.tracks@[ti as int].clips@[ci as int].wf());
            let clip: &Clip = &clips[ci];
            if let Some(parts) = plan_clip(c, project, clip) {
                let ghost before = plans@;
                let plan: ClipPlan = ClipPlan {
                    track: ti,
                    clip_index: ci,
                    parts,
                    style: style_of(clip),
                };
                let ghost v = plan@;
                plans.push(plan);
                assert(plan_view(plans@) =~= plan_view(before).push(v));
            }
            ci += 1;
        }
        ti += 1;
    }
    plans
}

// -------------------------------------------------------------------- audio

/// Both channels of a bus.
pub struct Stereo {
    pub l: Seq<F32>,
    pub r: Seq<F32>,
}

impl Stereo {
    /// `n` silent samples.
    pub open spec fn silent(n: nat) -> Stereo {
        Stereo { l: zeros(n), r: zeros(n) }
    }

    /// Both channels have `n` samples.
    pub open spec fn has_len(self, n: nat) -> bool {
        self.l.len() == n && self.r.len() == n
    }
}

/// What a buffer holds.
pub open spec fn stereo(b: StereoBuffer) -> Stereo {
    Stereo { l: b.left@, r: b.right@ }
}

/// The sum of two runs of samples.
pub open spec fn summed<K: Fn(Op, Width, u64, u64) -> u64>(c: &Calc<K>, a: Seq<F32>, b: Seq<F32>) -> Seq<F32> {
    Seq::new(a.len(), |i: int| a[i].add(c, b[i]))
}

/// The sum of two buses.
pub open spec fn buses_summed<K: Fn(Op, Width, u64, u64) -> u64>(c: &Calc<K>, a: Stereo, b: Stereo) -> Stereo {
    Stereo { l: summed(c, a.l, b.l), r: summed(c, a.r, b.r) }
}

/// Samples and their rate.
pub struct Sound {
    pub samples: Seq<F32>,
    pub rate: u32,
}

/// What a clip reads of a source's audio: filtered where the clip filters; `None`
/// where there is none.
pub open spec fn clip_sound<K: Fn(Op, Width, u64, u64) -> u64>(c: &Calc<K>, project: Project, filters: Seq<FilterSpec>, source: usize) -> Option<Sound> {
    if source < project.sources@.len() && project.sources@[source as int].audio is Some {
        let a = project.sources@[source as int].audio->0;
        Some(
            Sound {
                samples: if filters.len() == 0 {
                    a.samples@
                } else {
                    chain_filtered(
                        c,
                        a.samples@,
                        filters,
                        F32::of_count(c, a.sample_rate as u64),
                    )
                },
                rate: a.sample_rate,
            },
        )
    } else {
        None
    }
}

/// A bus with a source's events mixed in, from time `t0` on.
pub open spec fn part_mixed<K: Fn(Op, Width, u64, u64) -> u64>(c: &Calc<K>, sound: Option<Sound>, events: Seq<GrainEvent>, bus: Stereo, rate: u32, t0: F64) -> Stereo {
    match sound {
        Some(s) => Stereo {
            l: left_mixed(c, s.samples, s.rate, events, bus.l, rate, t0),
            r: right_mixed(c, s.samples, s.rate, events, bus.r, rate, t0),
        },
        None => bus,
    }
}

/// A bus with the first `n` parts of a clip mixed in.
pub open spec fn parts_mixed<K: Fn(Op, Width, u64, u64) -> u64>(c: &Calc<K>, project: Project, filters: Seq<FilterSpec>, parts: Seq<(usize, Seq<GrainEvent>)>, bus: Stereo, rate: u32, t0: F64, n: int) -> Stereo
    decreases n,
{
    if n <= 0 {
        bus
    } else {
        part_mixed(
            c,
            clip_sound(c, project, filters, parts[n - 1].0),
            parts[n - 1].1,
            parts_mixed(c, project, filters, parts, bus, rate, t0, n - 1),
            rate,
            t0,
        )
    }
}

/// A track's bus with a clip's sound in it, through the clip's effects where it has
/// any.
pub open spec fn clip_mixed<K: Fn(Op, Width, u64, u64) -> u64>(c: &Calc<K>, project: Project, clip: Clip, parts: Seq<(usize, Seq<GrainEvent>)>, bus: Stereo, rate: u32, t0: F64) -> Stereo {
    let n = parts.len() as int;
    if clip.effects@.len() == 0 {
        parts_mixed(c, project, clip.audio_filters@, parts, bus, rate, t0, n)
    } else {
        let dry = parts_mixed(
            c,
            project,
            clip.audio_filters@,
            parts,
            Stereo::silent(bus.l.len()),
            rate,
            t0,
            n,
        );
        let wet = rendered_chain(c, clip.effects@, rate, dry.l, dry.r);
        buses_summed(c, bus, Stereo { l: wet.0, r: wet.1 })
    }
}

/// A track's bus after the first `n` entries of the plan.
pub open spec fn track_mixed<K: Fn(Op, Width, u64, u64) -> u64>(c: &Calc<K>, project: Project, plan: Seq<PlanView>, ti: int, len: nat, t0: F64, n: int) -> Stereo
    decreases n,
{
    if n <= 0 {
        Stereo::silent(len)
    } else {
        let bus = track_mixed(c, project, plan, ti, len, t0, n - 1);
        let p = plan[n - 1];
        if p.track == ti {
            clip_mixed(
                c,
                project,
                project.tracks@[ti].clips@[p.clip],
                p.parts,
                bus,
                project.sample_rate,
                t0,
            )
        } else {
            bus
        }
    }
}

/// The beat of sample `i` of a window that starts at `t0`.
#[verifier::allow_in_spec]
pub fn sample_beat<K: Fn(Op, Width, u64, u64) -> u64>(c: &Calc<K>, bpm: F64, rate: u32, t0: F64, i: u64) -> F64
    requires
        c.sound(),
    returns
        (t0.add(c, F64::of_count(c, i).div(c, F64::of_count(c, rate as u64))).mul(c, bpm.div(c, double(0x404e_0000_0000_0000)))),
{
    t0.add(c, F64::of_count(c, i).div(c, F64::of_count(c, rate as u64))).mul(c, bpm.div(c, double(0x404e_0000_0000_0000)))
}

/// A bus at the track's level.
pub open spec fn leveled<K: Fn(Op, Width, u64, u64) -> u64>(c: &Calc<K>, master: Seq<F32>, bus: Seq<F32>, track: Track, bpm: F64, rate: u32, t0: F64) -> Seq<F32> {
    Seq::new(
        master.len(),
        |i: int|
            master[i].add(
                c,
                bus[i].mul(c, track.level_on(c, sample_beat(c, bpm, rate, t0, i as u64))),
            ),
    )
}

/// Whether a plan has an entry for a track.
pub open spec fn plays(plan: Seq<PlanView>, ti: int) -> bool {
    exists|i: int| 0 <= i < plan.len() && (#[trigger] plan[i]).track == ti
}

/// A track's sound: its clips through its effects.
pub open spec fn track_sound<K: Fn(Op, Width, u64, u64) -> u64>(c: &Calc<K>, project: Project, plan: Seq<PlanView>, ti: int, len: nat, t0: F64) -> Stereo {
    let bus = track_mixed(c, project, plan, ti, len, t0, plan.len() as int);
    let wet = rendered_chain(
        c,
        project.tracks@[ti].effects@,
        project.sample_rate,
        bus.l,
        bus.r,
    );
    Stereo { l: wet.0, r: wet.1 }
}

/// The master bus after the first `n` tracks: muted ones, and those that play
/// nothing, are left out.
pub open spec fn tracks_mixed<K: Fn(Op, Width, u64, u64) -> u64>(c: &Calc<K>, project: Project, plan: Seq<PlanView>, len: nat, t0: F64, n: int) -> Stereo
    decreases n,
{
    if n <= 0 {
        Stereo::silent(len)
    } else {
        let master = tracks_mixed(c, project, plan, len, t0, n - 1);
        let track = project.tracks@[n - 1];
        if track.muted || !plays(plan, n - 1) {
            master
        } else {
            let bus = track_sound(c, project, plan, n - 1, len, t0);
            Stereo {
                l: leveled(c, master.l, bus.l, track, project.bpm, project.sample_rate, t0),
                r: leveled(c, master.r, bus.r, track, project.bpm, project.sample_rate, t0),
            }
        }
    }
}

/// The sound of a project from time `t0` on, `len` samples of it.
pub open spec fn project_sound<K: Fn(Op, Width, u64, u64) -> u64>(c: &Calc<K>, project: Project, plan: Seq<PlanView>, len: nat, t0: F64) -> Stereo {
    let mix = tracks_mixed(c, project, plan, len, t0, project.tracks@.len() as int);
    let wet = rendered_chain(
        c,
        project.master_effects@,
        project.sample_rate,
        mix.l,
        mix.r,
    );
    Stereo {
        l: wet.0.map_values(|s: F32| soft_clipped(c, s)),
        r: wet.1.map_values(|s: F32| soft_clipped(c, s)),
    }
}

/// Whether every effect chain's latency can be counted.
pub open spec fn chains_fit<K: Fn(Op, Width, u64, u64) -> u64>(c: &Calc<K>, project: Project) -> bool {
    &&& latency_fits(c, project.master_effects@)
    &&& forall|i: int|
        0 <= i < project.tracks@.len() ==> latency_fits(c, (#[trigger] project.tracks@[i]).effects@)
    &&& forall|i: int, k: int|
        0 <= i < project.tracks@.len() && 0 <= k < project.tracks@[i].clips@.len()
            ==> latency_fits(c, (#[trigger] project.tracks@[i].clips@[k]).effects@)
}

proof fn lemma_mixed_len<K: Fn(Op, Width, u64, u64) -> u64>(c: &Calc<K>, sound: Option<Sound>, events: Seq<GrainEvent>, bus: Stereo, rate: u32, t0: F64)
    ensures
        part_mixed(c, sound, events, bus, rate, t0).l.len() == bus.l.len(),
        part_mixed(c, sound, events, bus, rate, t0).r.len() == bus.r.len(),
    decreases events.len(),
{
    if events.len() > 0 {
        lemma_mixed_len(c, sound, events.drop_last(), bus, rate, t0);
    }
}

fn mix_part<K: Fn(Op, Width, u64, u64) -> u64>(c: &Calc<K>, project: &Project, filters: &Vec<FilterSpec>, source: usize, events: &Vec<GrainEvent>, bus: &mut StereoBuffer, t0: F64)
    requires
        c.sound(),
        old(bus).wf(),
    ensures
        final(bus).wf(),
        final(bus).sample_rate == old(bus).sample_rate,
        final(bus).left@.len() == old(bus).left@.len(),
        stereo(*final(bus)) == part_mixed(
            c,
            clip_sound(c, *project, filters@, source),
            events@,
            stereo(*old(bus)),
            old(bus).sample_rate,
            t0,
        ),
{
    proof {
        lemma_mixed_len(
            c,
            clip_sound(c, *project, filters@, source),
            events@,
            stereo(*bus),
            bus.sample_rate,
            t0,
        );
    }
    if source >= project.sources.len() {
        return;
    }
    match &project.sources[source].audio {
        Some(audio) => {
            if filters.len() == 0 {
                render_grains_audio(c, audio, events, bus, t0);
            } else {
                let filtered: AudioClip = audio.filtered(c, filters);
                render_grains_audio(c, &filtered, events, bus, t0);
            }
        },
        None => {},
    }
}

fn mix_parts<K: Fn(Op, Width, u64, u64) -> u64>(c: &Calc<K>, project: &Project, filters: &Vec<FilterSpec>, parts: &Vec<(usize, Vec<GrainEvent>)>, bus: &mut StereoBuffer, t0: F64)
    requires
        c.sound(),
        old(bus).wf(),
    ensures
        final(bus).wf(),
        final(bus).sample_rate == old(bus).sample_rate,
        final(bus).left@.len() == old(bus).left@.len(),
        stereo(*final(bus)) == parts_mixed(
            c,
            *project,
            filters@,
            parts_view(parts@),
            stereo(*old(bus)),
            old(bus).sample_rate,
            t0,
            parts@.len() as int,
        ),
{
    let ghost first = stereo(*bus);
    let ghost rate = bus.sample_rate;
    let mut i: usize = 0;
    while i < parts.len()
        invariant
            c.sound(),
            i <= parts@.len(),
            bus.wf(),
            bus.sample_rate == rate,
            bus.left@.len() == first.l.len(),
            stereo(*bus) == parts_mixed(
                c,
                *project,
                filters@,
                parts_view(parts@),
                first,
                rate,
                t0,
                i as int,
            ),
        decreases parts.len() - i,
    {
        assert(parts_view(parts@)[i as int] == (parts@[i as int].0, parts@[i as int].1@));
        mix_part(c, project, filters, parts[i].0, &parts[i].1, bus, t0);
        i += 1;
    }
}

/// A buffer of silence.
pub(crate) fn silent_buffer(n: usize, sample_rate: u32) -> (r: StereoBuffer)
    ensures
        r.wf(),
        r.sample_rate == sample_rate,
        r.left@.len() == n,
        stereo(r) == Stereo::silent(n as nat),
{
    StereoBuffer {
        left: crate::audio::silence(n),
        right: crate::audio::silence(n),
        sample_rate,
    }
}

/// Add one channel onto another.
pub(crate) fn add_into<K: Fn(Op, Width, u64, u64) -> u64>(c: &Calc<K>, a: &mut Vec<F32>, b: &Vec<F32>)
    requires
        c.sound(),
        b@.len() == old(a)@.len(),
    ensures
        final(a)@ == summed(c, old(a)@, b@),
{
    let ghost first = a@;
    let mut i: usize = 0;
    while i < a.len()
        invariant
            c.sound(),
            i <= a@.len(),
            a@.len() == first.len(),
            b@.len() == first.len(),
            forall|k: int| 0 <= k < i ==> a@[k] == first[k].add(c, b@[k]),
            forall|k: int| i <= k < first.len() ==> a@[k] == first[k],
        decreases a.len() - i,
    {
        let v: F32 = a[i].add(c, b[i]);
        a.set(i, v);
        i += 1;
    }
    assert(a@ =~= summed(c, first, b@));
}

fn mix_clip<K: Fn(Op, Width, u64, u64) -> u64>(c: &Calc<K>, project: &Project, clip: &Clip, parts: &Vec<(usize, Vec<GrainEvent>)>, bus: &mut StereoBuffer, t0: F64)
    requires
        c.sound(),
        old(bus).wf(),
        latency_fits(c, clip.effects@),
    ensures
        final(bus).wf(),
        final(bus).sample_rate == old(bus).sample_rate,
        final(bus).left@.len() == old(bus).left@.len(),
        stereo(*final(bus)) == clip_mixed(
            c,
            *project,
            *clip,
            parts_view(parts@),
            stereo(*old(bus)),
            old(bus).sample_rate,
            t0,
        ),
{
    if clip.effects.len() == 0 {
        mix_parts(c, project, &clip.audio_filters, parts, bus, t0);
    } else {
        let mut own: StereoBuffer = silent_buffer(bus.left.len(), bus.sample_rate);
        mix_parts(c, project, &clip.audio_filters, parts, &mut own, t0);
        apply_audio_chain(c, &mut own, &clip.effects);
        add_into(c, &mut bus.left, &own.left);
        add_into(c, &mut bus.right, &own.right);
    }
}

fn mix_track<K: Fn(Op, Width, u64, u64) -> u64>(c: &Calc<K>, project: &Project, plan: &Vec<ClipPlan>, ti: usize, len: usize, t0: F64) -> (r: StereoBuffer)
    requires
        c.sound(),
        chains_fit(c, *project),
        plan_fits(*project, plan_view(plan@)),
        ti < project.tracks@.len(),
    ensures
        r.wf(),
        r.sample_rate == project.sample_rate,
        stereo(r).has_len(len as nat),
        stereo(r) == track_sound(c, *project, plan_view(plan@), ti as int, len as nat, t0),
{
    let ghost pv = plan_view(plan@);
    let mut bus: StereoBuffer = silent_buffer(len, project.sample_rate);
    let track: &Track = &project.tracks[ti];
    let mut i: usize = 0;
    while i < plan.len()
        invariant
            c.sound(),
            chains_fit(c, *project),
            pv == plan_view(plan@),
            plan_fits(*project, pv),
            ti < project.tracks@.len(),
            *track == project.tracks@[ti as int],
            i <= plan@.len(),
            bus.wf(),
            bus.sample_rate == project.sample_rate,
            bus.left@.len() == len,
            stereo(bus) == track_mixed(c, *project, pv, ti as int, len as nat, t0, i as int),
        decreases plan.len() - i,
    {
        let p: &ClipPlan = &plan[i];
        assert(pv[i as int] == p@);
        if p.track == ti {
            let clip: &Clip = &track.clips[p.clip_index];
            mix_clip(c, project, clip, &p.parts, &mut bus, t0);
        }
        i += 1;
    }
    apply_audio_chain(c, &mut bus, &track.effects);
    bus
}

fn level_into<K: Fn(Op, Width, u64, u64) -> u64>(c: &Calc<K>, master: &mut Vec<F32>, bus: &Vec<F32>, track: &Track, bpm: F64, rate: u32, t0: F64)
    requires
        c.sound(),
        bus@.len() == old(master)@.len(),
    ensures
        final(master)@ == leveled(c, old(master)@, bus@, *track, bpm, rate, t0),
{
    let ghost first = master@;
    let ghost want = leveled(c, first, bus@, *track, bpm, rate, t0);
    let mut i: usize = 0;
    while i < master.len()
        invariant
            c.sound(),
            i <= master@.len(),
            master@.len() == first.len(),
            bus@.len() == first.len(),
            want == leveled(c, first, bus@, *track, bpm, rate, t0),
            forall|k: int| 0 <= k < i ==> master@[k] == want[k],
            forall|k: int| i <= k < first.len() ==> master@[k] == first[k],
        decreases master.len() - i,
    {
        let level: F32 = track.level_at(c, sample_beat(c, bpm, rate, t0, i as u64));
        let v: F32 = master[i].add(c, bus[i].mul(c, level));
        master.set(i, v);
        i += 1;
    }
    assert(master@ =~= want);
}

pub(crate) fn has_entry(plan: &Vec<ClipPlan>, ti: usize) -> (r: bool)
    ensures
        r == plays(plan_view(plan@), ti as int),
{
    let ghost pv = plan_view(plan@);
    let mut i: usize = 0;
    while i < plan.len()
        invariant
            pv == plan_view(plan@),
            i <= plan@.len(),
            forall|k: int| 0 <= k < i ==> (#[trigger] pv[k]).track != ti,
        decreases plan.len() - i,
    {
        assert(pv[i as int] == plan@[i as int]@);
        if plan[i].track == ti {
            assert(pv[i as int].track == ti);
            return true;
        }
        i += 1;
    }
    false
}

fn render_sound<K: Fn(Op, Width, u64, u64) -> u64>(c: &Calc<K>, project: &Project, plan: &Vec<ClipPlan>, len: usize, t0: F64) -> (r: StereoBuffer)
    requires
        c.sound(),
        chains_fit(c, *project),
        plan_fits(*project, plan_view(plan@)),
    ensures
        r.wf(),
        r.sample_rate == project.sample_rate,
        r.left@.len() == len,
        stereo(r) == project_sound(c, *project, plan_view(plan@), len as nat, t0),
{
    let ghost pv = plan_view(plan@);
    let mut master: StereoBuffer = silent_buffer(len, project.sample_rate);
    let mut ti: usize = 0;
    while ti < project.tracks.len()
        invariant
            c.sound(),
            chains_fit(c, *project),
            pv == plan_view(plan@),
            plan_fits(*project, pv),
            ti <= project.tracks@.len(),
            master.wf(),
            master.sample_rate == project.sample_rate,
            master.left@.len() == len,
            stereo(master) == tracks_mixed(c, *project, pv, len as nat, t0, ti as int),
        decreases project.tracks.len() - ti,
    {
        let track: &Track = &project.tracks[ti];
        if !track.muted && has_entry(plan, ti) {
            let bus: StereoBuffer = mix_track(c, project, plan, ti, len, t0);
            level_into(
                c,
                &mut master.left,
                &bus.left,
                track,
                project.bpm,
                project.sample_rate,
                t0,
            );
            level_into(
                c,
                &mut master.right,
                &bus.right,
                track,
                project.bpm,
                project.sample_rate,
                t0,
            );
        }
        ti += 1;
    }
    apply_audio_chain(c, &mut master, &project.master_effects);
    master.soft_clip(c);
    master
}

// -------------------------------------------------------------------- video

/// Whether a grain sounds at a time.
pub open spec fn sounding<K: Fn(Op, Width, u64, u64) -> u64>(c: &Calc<K>, ev: GrainEvent, t: F64) -> bool {
    ev.onset.le(t) && t.lt(grain_end(c, ev))
}

/// Whether any grain of a clip sounds at a time.
pub open spec fn active<K: Fn(Op, Width, u64, u64) -> u64>(c: &Calc<K>, parts: Seq<(usize, Seq<GrainEvent>)>, t: F64) -> bool {
    exists|p: int, k: int|
        0 <= p < parts.len() && 0 <= k < parts[p].1.len() && #[trigger] sounding(c, parts[p].1[k], t)
}

/// A clear canvas.
pub open spec fn clear(project: Project) -> Image {
    plain(project.width as int, project.height as int, Rgba { r: 0, g: 0, b: 0, a: 0 })
}

/// A layer with the first `n` parts of a clip drawn on it.
pub open spec fn parts_drawn<K: Fn(Op, Width, u64, u64) -> u64>(c: &Calc<K>, project: Project, clip: Clip, style: VisualGrainStyle, parts: Seq<(usize, Seq<GrainEvent>)>, layer: Image, t: F64, n: int) -> Image
    decreases n,
{
    if n <= 0 {
        layer
    } else {
        let below = parts_drawn(c, project, clip, style, parts, layer, t, n - 1);
        let source = parts[n - 1].0;
        if source < project.sources@.len() && project.sources@[source as int].video is Some {
            let video = *project.sources@[source as int].video->0;
            Image {
                px: layer_composited(
                    c,
                    video,
                    draws_of(
                        c,
                        look_at(
                            c,
                            style,
                            clip.link,
                            clip.transform,
                            video.lasts(c),
                            project.width,
                            project.height,
                        ),
                        parts[n - 1].1,
                        t,
                    ),
                    clip.color_filter,
                    style.additive.clamp(single(0), single(0x3f80_0000)),
                    below,
                ),
                ..below
            }
        } else {
            below
        }
    }
}

/// A clip's layer at a time, and its effects' states after it; no layer where the clip
/// shows nothing and has no effects.
pub open spec fn clip_layer<K: Fn(Op, Width, u64, u64) -> u64>(c: &Calc<K>, project: Project, clip: Clip, p: PlanView, states: Seq<VideoFxView>, t: F64) -> (Seq<VideoFxView>, Option<Image>) {
    if !active(c, p.parts, t) && clip.effects@.len() == 0 {
        (states, None)
    } else {
        let drawn = if active(c, p.parts, t) {
            parts_drawn(
                c,
                project,
                clip,
                p.style,
                p.parts,
                clear(project),
                t,
                p.parts.len() as int,
            )
        } else {
            clear(project)
        };
        let (s, f) = chain_frame(c, clip.effects@, states, drawn, clip.effects@.len() as int);
        (s, Some(f))
    }
}

/// A track's layer at a time after the first `n` entries of the plan, and the clips'
/// states.
pub open spec fn track_layer<K: Fn(Op, Width, u64, u64) -> u64>(c: &Calc<K>, project: Project, plan: Seq<PlanView>, ti: int, states: Seq<Seq<VideoFxView>>, t: F64, n: int) -> (Seq<Seq<VideoFxView>>, Option<Image>)
    decreases n,
{
    if n <= 0 {
        (states, None)
    } else {
        let (s, below) = track_layer(c, project, plan, ti, states, t, n - 1);
        let p = plan[n - 1];
        if p.track != ti {
            (s, below)
        } else {
            let clip = project.tracks@[ti].clips@[p.clip];
            let (own, layer) = clip_layer(c, project, clip, p, s[n - 1], t);
            match layer {
                Some(f) => {
                    let under = match below {
                        Some(b) => b,
                        None => clear(project),
                    };
                    (
                        s.update(n - 1, own),
                        Some(
                            Image { px: layers_stacked(c, under.px, f.px, p.style.additive), ..under },
                        ),
                    )
                },
                None => (s.update(n - 1, own), below),
            }
        }
    }
}

/// The time of frame `i` of a window that starts at `t0`.
#[verifier::allow_in_spec]
pub fn frame_time<K: Fn(Op, Width, u64, u64) -> u64>(c: &Calc<K>, fps: F32, t0: F64, i: u64) -> F64
    requires
        c.sound(),
    returns
        (t0.add(c, F64::of_count(c, i).div(c, fps.to_f64(c)))),
{
    t0.add(c, F64::of_count(c, i).div(c, fps.to_f64(c)))
}

/// The beat at a time.
#[verifier::allow_in_spec]
pub fn time_beat<K: Fn(Op, Width, u64, u64) -> u64>(c: &Calc<K>, bpm: F64, t: F64) -> F64
    requires
        c.sound(),
    returns
        (t.mul(c, bpm).div(c, double(0x404e_0000_0000_0000))),
{
    t.mul(c, bpm).div(c, double(0x404e_0000_0000_0000))
}

/// The states that a track's clips and the track itself carry from frame to frame.
pub struct TrackStates {
    pub clips: Seq<Seq<VideoFxView>>,
    pub track: Seq<VideoFxView>,
}

/// A frame with a track on top, and the states after it.
pub open spec fn track_frame<K: Fn(Op, Width, u64, u64) -> u64>(c: &Calc<K>, project: Project, plan: Seq<PlanView>, ti: int, states: TrackStates, frame: Image, t: F64) -> (TrackStates, Image) {
    let track = project.tracks@[ti];
    let (clips, layer) = track_layer(c, project, plan, ti, states.clips, t, plan.len() as int);
    if layer is None && track.effects@.len() == 0 {
        (TrackStates { clips, track: states.track }, frame)
    } else {
        let dry = match layer {
            Some(f) => f,
            None => clear(project),
        };
        let (s, wet) = chain_frame(
            c,
            track.effects@,
            states.track,
            dry,
            track.effects@.len() as int,
        );
        let opacity = level_opacity(
            c,
            track.level_on(c, time_beat(c, project.bpm, t)),
            track.level_to_opacity,
        );
        (
            TrackStates { clips, track: s },
            Image { px: layer_blended(c, frame.px, wet.px, single(0), opacity), ..frame },
        )
    }
}

/// The states that a track starts with.
pub open spec fn fresh_track<K: Fn(Op, Width, u64, u64) -> u64>(c: &Calc<K>, project: Project, plan: Seq<PlanView>, ti: int) -> TrackStates {
    TrackStates {
        clips: plan.map_values(
            |p: PlanView|
                fresh_video_states(
                    c,
                    project.tracks@[p.track].clips@[p.clip].effects@,
                    project.fps,
                ),
        ),
        track: fresh_video_states(c, project.tracks@[ti].effects@, project.fps),
    }
}

/// The first `n` frames with a track on top, and the states after them.
pub open spec fn track_frames<K: Fn(Op, Width, u64, u64) -> u64>(c: &Calc<K>, project: Project, plan: Seq<PlanView>, ti: int, frames: Seq<Image>, t0: F64, n: int) -> (TrackStates, Seq<Image>)
    decreases n,
{
    if n <= 0 {
        (fresh_track(c, project, plan, ti), frames)
    } else {
        let (s, done) = track_frames(c, project, plan, ti, frames, t0, n - 1);
        let (next, f) = track_frame(
            c,
            project,
            plan,
            ti,
            s,
            done[n - 1],
            frame_time(c, project.fps, t0, (n - 1) as u64),
        );
        (next, done.update(n - 1, f))
    }
}

/// Whether a clip's part has something to show.
pub open spec fn part_shows(project: Project, part: (usize, Seq<GrainEvent>)) -> bool {
    part.1.len() > 0 && part.0 < project.sources@.len()
        && project.sources@[part.0 as int].video is Some
}

/// Whether a track has anything to show.
pub open spec fn track_shows(project: Project, plan: Seq<PlanView>, ti: int) -> bool {
    project.tracks@[ti].effects@.len() > 0 || exists|i: int, k: int|
        0 <= i < plan.len() && plan[i].track == ti && 0 <= k < plan[i].parts.len()
            && #[trigger] part_shows(project, plan[i].parts[k])
}

/// The frames after the first `n` tracks.
pub open spec fn tracks_shown<K: Fn(Op, Width, u64, u64) -> u64>(c: &Calc<K>, project: Project, plan: Seq<PlanView>, count: nat, t0: F64, n: int) -> Seq<Image>
    decreases n,
{
    if n <= 0 {
        Seq::new(
            count,
            |i: int|
                plain(
                    project.width as int,
                    project.height as int,
                    Rgba { r: 0, g: 0, b: 0, a: 255 },
                ),
        )
    } else {
        let below = tracks_shown(c, project, plan, count, t0, n - 1);
        let ti = n - 1;
        if project.tracks@[ti].muted || !plays(plan, ti) || !track_shows(project, plan, ti) {
            below
        } else {
            track_frames(c, project, plan, ti, below, t0, count as int).1
        }
    }
}

/// The first `n` frames through the master effects, and the states after them.
pub open spec fn master_frames<K: Fn(Op, Width, u64, u64) -> u64>(c: &Calc<K>, project: Project, frames: Seq<Image>, n: int) -> (Seq<VideoFxView>, Seq<Image>)
    decreases n,
{
    let chain = project.master_effects@;
    if n <= 0 {
        (fresh_video_states(c, chain, project.fps), frames)
    } else {
        let (s, done) = master_frames(c, project, frames, n - 1);
        let (next, f) = chain_frame(c, chain, s, done[n - 1], chain.len() as int);
        (next, done.update(n - 1, f))
    }
}

/// What a project shows from time `t0` on, `count` frames of it.
pub open spec fn project_shown<K: Fn(Op, Width, u64, u64) -> u64>(c: &Calc<K>, project: Project, plan: Seq<PlanView>, count: nat, t0: F64) -> Seq<Image> {
    master_frames(
        c,
        project,
        tracks_shown(c, project, plan, count, t0, project.tracks@.len() as int),
        count as int,
    ).1
}

/// Whether a frame is whole and has the size of the canvas.
pub open spec fn on_canvas(project: Project, f: Frame) -> bool {
    f.wf() && f.width == project.width && f.height == project.height
}

/// Whether a chain's states are in order and cover the canvas.
pub open spec fn states_ready(project: Project, states: Seq<VideoFxState>) -> bool {
    video_states_wf(states) && states_cover(video_states_view(states), clear(project))
}

/// Whether the states of all clips are in order and cover the canvas.
pub open spec fn all_ready(project: Project, states: Seq<Vec<VideoFxState>>) -> bool {
    forall|i: int| 0 <= i < states.len() ==> states_ready(project, (#[trigger] states[i])@)
}

/// What the states of all clips hold.
pub open spec fn all_views(states: Seq<Vec<VideoFxState>>) -> Seq<Seq<VideoFxView>> {
    states.map_values(|s: Vec<VideoFxState>| video_states_view(s@))
}

fn is_active<K: Fn(Op, Width, u64, u64) -> u64>(c: &Calc<K>, parts: &Vec<(usize, Vec<GrainEvent>)>, t: F64) -> (r: bool)
    requires
        c.sound(),
    ensures
        r == active(c, parts_view(parts@), t),
{
    let ghost pv = parts_view(parts@);
    let mut p: usize = 0;
    while p < parts.len()
        invariant
            c.sound(),
            pv == parts_view(parts@),
            p <= parts@.len(),
            forall|q: int, k: int|
                0 <= q < p && 0 <= k < pv[q].1.len() ==> !#[trigger] sounding(c, pv[q].1[k], t),
        decreases parts.len() - p,
    {
        let events: &Vec<GrainEvent> = &parts[p].1;
        assert(pv[p as int].1 == events@);
        let mut k: usize = 0;
        while k < events.len()
            invariant
                c.sound(),
                p < parts@.len(),
                pv == parts_view(parts@),
                pv[p as int].1 == events@,
                k <= events@.len(),
                forall|j: int| 0 <= j < k ==> !#[trigger] sounding(c, pv[p as int].1[j], t),
            decreases events.len() - k,
        {
            let ev: GrainEvent = events[k];
            if ev.onset.le(t) && t.lt(grain_end(c, ev)) {
                assert(sounding(c, pv[p as int].1[k as int], t));
                return true;
            }
            k += 1;
        }
        p += 1;
    }
    false
}

fn draw_parts<K: Fn(Op, Width, u64, u64) -> u64>(c: &Calc<K>, project: &Project, clip: &Clip, style: &VisualGrainStyle, parts: &Vec<(usize, Vec<GrainEvent>)>, layer: &mut Frame, t: F64)
    requires
        c.sound(),
        project.wf(),
        on_canvas(*project, *old(layer)),
    ensures
        on_canvas(*project, *final(layer)),
        final(layer)@ == parts_drawn(
            c,
            *project,
            *clip,
            *style,
            parts_view(parts@),
            old(layer)@,
            t,
            parts@.len() as int,
        ),
{
    let ghost first = layer@;
    let ghost pv = parts_view(parts@);
    let mut i: usize = 0;
    while i < parts.len()
        invariant
            c.sound(),
            project.wf(),
            on_canvas(*project, *layer),
            pv == parts_view(parts@),
            i <= parts@.len(),
            layer@ == parts_drawn(c, *project, *clip, *style, pv, first, t, i as int),
        decreases parts.len() - i,
    {
        let source: usize = parts[i].0;
        assert(pv[i as int] == (source, parts@[i as int].1@));
        if source < project.sources.len() {
            assert(project.sources@[source as int].wf());
            match &project.sources[source].video {
                Some(video) => {
                    composite_grains_frame(
                        c,
                        video,
                        &parts[i].1,
                        style,
                        &clip.link,
                        &clip.transform,
                        &clip.color_filter,
                        layer,
                        t,
                    );
                },
                None => {},
            }
        }
        i += 1;
    }
}

proof fn lemma_cover(states: Seq<VideoFxView>, a: Image, b: Image)
    requires
        a.width == b.width,
        a.height == b.height,
        states_cover(states, a),
    ensures
        states_cover(states, b),
{
    assert forall|i: int| 0 <= i < states.len() implies crate::fx_video::state_covers(
        #[trigger] states[i],
        b,
    ) by {
        assert(crate::fx_video::state_covers(states[i], a));
    }
}

fn run_chain<K: Fn(Op, Width, u64, u64) -> u64>(c: &Calc<K>, project: &Project, frame: &mut Frame, chain: &Vec<AvEffect>, states: &mut Vec<VideoFxState>)
    requires
        c.sound(),
        on_canvas(*project, *old(frame)),
        old(states)@.len() == chain@.len(),
        states_ready(*project, old(states)@),
    ensures
        on_canvas(*project, *final(frame)),
        final(states)@.len() == chain@.len(),
        states_ready(*project, final(states)@),
        (video_states_view(final(states)@), final(frame)@) == chain_frame(
            c,
            chain@,
            video_states_view(old(states)@),
            old(frame)@,
            chain@.len() as int,
        ),
{
    proof {
        lemma_cover(video_states_view(states@), clear(*project), frame@);
    }
    apply_video_chain(c, frame, chain, states);
    proof {
        lemma_cover(video_states_view(states@), frame@, clear(*project));
    }
}

fn draw_clip<K: Fn(Op, Width, u64, u64) -> u64>(c: &Calc<K>, project: &Project, clip: &Clip, plan: &ClipPlan, states: &mut Vec<VideoFxState>, t: F64) -> (r: Option<Frame>)
    requires
        c.sound(),
        project.wf(),
        old(states)@.len() == clip.effects@.len(),
        states_ready(*project, old(states)@),
    ensures
        final(states)@.len() == clip.effects@.len(),
        states_ready(*project, final(states)@),
        r is Some ==> on_canvas(*project, r->0),
        ({
            let (s, layer) = clip_layer(
                c,
                *project,
                *clip,
                plan@,
                video_states_view(old(states)@),
                t,
            );
            &&& video_states_view(final(states)@) == s
            &&& r is Some <==> layer is Some
            &&& r is Some ==> r->0@ == layer->0
        }),
{
    let on: bool = is_active(c, &plan.parts, t);
    if !on && clip.effects.len() == 0 {
        return None;
    }
    let mut layer: Frame = Frame::transparent(project.width, project.height);
    if on {
        draw_parts(c, project, clip, &plan.style, &plan.parts, &mut layer, t);
    }
    run_chain(c, project, &mut layer, &clip.effects, states);
    Some(layer)
}

/// Whether the states of all clips belong to the plan.
pub open spec fn states_match(project: Project, plan: Seq<PlanView>, states: Seq<Vec<VideoFxState>>) -> bool {
    &&& states.len() == plan.len()
    &&& forall|i: int|
        0 <= i < plan.len() ==> (#[trigger] states[i])@.len()
            == project.tracks@[plan[i].track].clips@[plan[i].clip].effects@.len()
}

fn draw_track<K: Fn(Op, Width, u64, u64) -> u64>(c: &Calc<K>, project: &Project, plan: &Vec<ClipPlan>, ti: usize, states: &mut Vec<Vec<VideoFxState>>, t: F64) -> (r: Option<Frame>)
    requires
        c.sound(),
        project.wf(),
        plan_fits(*project, plan_view(plan@)),
        ti < project.tracks@.len(),
        states_match(*project, plan_view(plan@), old(states)@),
        all_ready(*project, old(states)@),
    ensures
        states_match(*project, plan_view(plan@), final(states)@),
        all_ready(*project, final(states)@),
        r is Some ==> on_canvas(*project, r->0),
        ({
            let (s, layer) = track_layer(
                c,
                *project,
                plan_view(plan@),
                ti as int,
                all_views(old(states)@),
                t,
                plan@.len() as int,
            );
            &&& all_views(final(states)@) == s
            &&& r is Some <==> layer is Some
            &&& r is Some ==> r->0@ == layer->0
        }),
{
    let ghost pv = plan_view(plan@);
    let ghost first = all_views(states@);
    let mut out: Option<Frame> = None;
    let track: &Track = &project.tracks[ti];
    let mut i: usize = 0;
    while i < plan.len()
        invariant
            c.sound(),
            project.wf(),
            pv == plan_view(plan@),
            plan_fits(*project, pv),
            ti < project.tracks@.len(),
            *track == project.tracks@[ti as int],
            states_match(*project, pv, states@),
            all_ready(*project, states@),
            i <= plan@.len(),
            out is Some ==> on_canvas(*project, out->0),
            ({
                let (s, layer) = track_layer(c, *project, pv, ti as int, first, t, i as int);
                &&& all_views(states@) == s
                &&& out is Some <==> layer is Some
                &&& out is Some ==> out->0@ == layer->0
            }),
        decreases plan.len() - i,
    {
        let p: &ClipPlan = &plan[i];
        assert(pv[i as int] == p@);
        if p.track == ti {
            let ghost before = states@;
            let clip: &Clip = &track.clips[p.clip_index];
            assert(states_ready(*project, states@[i as int]@));
            assert(all_views(states@)[i as int] == video_states_view(states@[i as int]@));
            let layer: Option<Frame> = draw_clip(c, project, clip, p, &mut states[i], t);
            assert(all_views(states@) =~= all_views(before).update(
                i as int,
                video_states_view(states@[i as int]@),
            ));
            if let Some(f) = layer {
                let mut under: Frame = match out {
                    Some(b) => b,
                    None => Frame::transparent(project.width, project.height),
                };
                blend_layer_over(c, &mut under, &f, p.style.additive);
                out = Some(under);
            }
        }
        i += 1;
    }
    out
}

fn show_track<K: Fn(Op, Width, u64, u64) -> u64>(c: &Calc<K>, project: &Project, plan: &Vec<ClipPlan>, ti: usize, clips: &mut Vec<Vec<VideoFxState>>, own: &mut Vec<VideoFxState>, frame: &mut Frame, t: F64)
    requires
        c.sound(),
        project.wf(),
        plan_fits(*project, plan_view(plan@)),
        ti < project.tracks@.len(),
        states_match(*project, plan_view(plan@), old(clips)@),
        all_ready(*project, old(clips)@),
        old(own)@.len() == project.tracks@[ti as int].effects@.len(),
        states_ready(*project, old(own)@),
        on_canvas(*project, *old(frame)),
    ensures
        states_match(*project, plan_view(plan@), final(clips)@),
        all_ready(*project, final(clips)@),
        final(own)@.len() == project.tracks@[ti as int].effects@.len(),
        states_ready(*project, final(own)@),
        on_canvas(*project, *final(frame)),
        ({
            let (s, f) = track_frame(
                c,
                *project,
                plan_view(plan@),
                ti as int,
                (TrackStates {
                    clips: all_views(old(clips)@),
                    track: video_states_view(old(own)@),
                }),
                old(frame)@,
                t,
            );
            &&& all_views(final(clips)@) == s.clips
            &&& video_states_view(final(own)@) == s.track
            &&& final(frame)@ == f
        }),
{
    let track: &Track = &project.tracks[ti];
    let layer: Option<Frame> = draw_track(c, project, plan, ti, clips, t);
    if layer.is_none() && track.effects.len() == 0 {
        return;
    }
    let mut f: Frame = match layer {
        Some(f) => f,
        None => Frame::transparent(project.width, project.height),
    };
    run_chain(c, project, &mut f, &track.effects, own);
    let opacity: F32 = track.opacity_at(c, time_beat(c, project.bpm, t));
    blend_layer(c, frame, &f, single(0), opacity);
}

proof fn lemma_fresh_ready<K: Fn(Op, Width, u64, u64) -> u64>(c: &Calc<K>, project: Project, chain: Seq<AvEffect>, states: Seq<VideoFxState>)
    requires
        video_states_wf(states),
        video_states_view(states) == fresh_video_states(c, chain, project.fps),
    ensures
        states_ready(project, states),
        states.len() == chain.len(),
{
    assert(video_states_view(states).len() == states.len());
    assert forall|i: int| 0 <= i < states.len() implies crate::fx_video::state_covers(
        #[trigger] video_states_view(states)[i],
        clear(project),
    ) by {
        assert(fresh_video_states(c, chain, project.fps)[i]
            == crate::fx_video::fresh_video_state(c, chain[i].kind, project.fps));
    }
}

fn fresh_clip_states<K: Fn(Op, Width, u64, u64) -> u64>(c: &Calc<K>, project: &Project, plan: &Vec<ClipPlan>) -> (r: Vec<Vec<VideoFxState>>)
    requires
        c.sound(),
        plan_fits(*project, plan_view(plan@)),
    ensures
        states_match(*project, plan_view(plan@), r@),
        all_ready(*project, r@),
        all_views(r@) == fresh_track(c, *project, plan_view(plan@), 0).clips,
{
    let ghost pv = plan_view(plan@);
    let ghost want = fresh_track(c, *project, pv, 0).clips;
    let mut out: Vec<Vec<VideoFxState>> = Vec::new();
    let mut i: usize = 0;
    while i < plan.len()
        invariant
            c.sound(),
            pv == plan_view(plan@),
            plan_fits(*project, pv),
            want == fresh_track(c, *project, pv, 0).clips,
            i <= plan@.len(),
            out@.len() == i,
            forall|k: int|
                0 <= k < i ==> (#[trigger] out@[k])@.len()
                    == project.tracks@[pv[k].track].clips@[pv[k].clip].effects@.len(),
            all_ready(*project, out@),
            all_views(out@) =~= want.take(i as int),
        decreases plan.len() - i,
    {
        let p: &ClipPlan = &plan[i];
        assert(pv[i as int] == p@);
        let chain: &Vec<AvEffect> = &project.tracks[p.track].clips[p.clip_index].effects;
        let s: Vec<VideoFxState> = video_chain_states(c, chain, project.fps);
        proof {
            lemma_fresh_ready(c, *project, chain@, s@);
        }
        let ghost before = out@;
        let ghost sv = video_states_view(s@);
        out.push(s);
        assert(all_views(out@) =~= all_views(before).push(sv));
        i += 1;
    }
    assert(want.take(i as int) =~= want);
    out
}

/// What a run of frames shows.
pub open spec fn shown(frames: Seq<Frame>) -> Seq<Image> {
    frames.map_values(|f: Frame| f@)
}

/// Whether every frame is whole and has the size of the canvas.
pub open spec fn all_on_canvas(project: Project, frames: Seq<Frame>) -> bool {
    forall|i: int| 0 <= i < frames.len() ==> on_canvas(project, #[trigger] frames[i])
}

fn render_track<K: Fn(Op, Width, u64, u64) -> u64>(c: &Calc<K>, project: &Project, plan: &Vec<ClipPlan>, ti: usize, frames: &mut Vec<Frame>, t0: F64)
    requires
        c.sound(),
        project.wf(),
        plan_fits(*project, plan_view(plan@)),
        ti < project.tracks@.len(),
        all_on_canvas(*project, old(frames)@),
    ensures
        all_on_canvas(*project, final(frames)@),
        final(frames)@.len() == old(frames)@.len(),
        shown(final(frames)@) == track_frames(
            c,
            *project,
            plan_view(plan@),
            ti as int,
            shown(old(frames)@),
            t0,
            old(frames)@.len() as int,
        ).1,
{
    let ghost pv = plan_view(plan@);
    let ghost first = shown(frames@);
    let mut clips: Vec<Vec<VideoFxState>> = fresh_clip_states(c, project, plan);
    let mut own: Vec<VideoFxState> = video_chain_states(c, &project.tracks[ti].effects, project.fps);
    proof {
        lemma_fresh_ready(c, *project, project.tracks@[ti as int].effects@, own@);
    }
    let n: usize = frames.len();
    let mut i: usize = 0;
    while i < n
        invariant
            c.sound(),
            project.wf(),
            pv == plan_view(plan@),
            plan_fits(*project, pv),
            ti < project.tracks@.len(),
            n == frames@.len(),
            n == first.len(),
            i <= n,
            states_match(*project, pv, clips@),
            all_ready(*project, clips@),
            own@.len() == project.tracks@[ti as int].effects@.len(),
            states_ready(*project, own@),
            all_on_canvas(*project, frames@),
            ({
                let (s, done) = track_frames(c, *project, pv, ti as int, first, t0, i as int);
                &&& all_views(clips@) == s.clips
                &&& video_states_view(own@) == s.track
                &&& shown(frames@) == done
            }),
        decreases n - i,
    {
        let t: F64 = frame_time(c, project.fps, t0, i as u64);
        let ghost before = frames@;
        assert(shown(frames@)[i as int] == frames@[i as int]@);
        show_track(c, project, plan, ti, &mut clips, &mut own, &mut frames[i], t);
        assert(shown(frames@) =~= shown(before).update(i as int, frames@[i as int]@));
        i += 1;
    }
}

fn shows(project: &Project, plan: &Vec<ClipPlan>, ti: usize) -> (r: bool)
    requires
        ti < project.tracks@.len(),
    ensures
        r == track_shows(*project, plan_view(plan@), ti as int),
{
    if project.tracks[ti].effects.len() > 0 {
        return true;
    }
    let ghost pv = plan_view(plan@);
    let mut i: usize = 0;
    while i < plan.len()
        invariant
            pv == plan_view(plan@),
            i <= plan@.len(),
            forall|j: int, k: int|
                0 <= j < i && pv[j].track == ti && 0 <= k < pv[j].parts.len() ==> !#[trigger] part_shows(
                    *project,
                    pv[j].parts[k],
                ),
        decreases plan.len() - i,
    {
        let p: &ClipPlan = &plan[i];
        assert(pv[i as int] == p@);
        if p.track == ti {
            let mut k: usize = 0;
            while k < p.parts.len()
                invariant
                    pv == plan_view(plan@),
                    i < plan@.len(),
                    pv[i as int] == p@,
                    k <= p.parts@.len(),
                    p.track == ti,
                    forall|j: int|
                        0 <= j < k ==> !#[trigger] part_shows(*project, pv[i as int].parts[j]),
                decreases p.parts.len() - k,
            {
                let source: usize = p.parts[k].0;
                assert(pv[i as int].parts[k as int] == (source, p.parts@[k as int].1@));
                if p.parts[k].1.len() > 0 && source < project.sources.len()
                    && project.sources[source].video.is_some() {
                    assert(part_shows(*project, pv[i as int].parts[k as int]));
                    return true;
                }
                k += 1;
            }
        }
        i += 1;
    }
    false
}

fn render_frames<K: Fn(Op, Width, u64, u64) -> u64>(c: &Calc<K>, project: &Project, plan: &Vec<ClipPlan>, count: usize, t0: F64) -> (r: Vec<Frame>)
    requires
        c.sound(),
        project.wf(),
        plan_fits(*project, plan_view(plan@)),
    ensures
        r@.len() == count,
        all_on_canvas(*project, r@),
        shown(r@) == project_shown(c, *project, plan_view(plan@), count as nat, t0),
{
    let ghost pv = plan_view(plan@);
    let mut frames: Vec<Frame> = Vec::new();
    let mut i: usize = 0;
    while i < count
        invariant
            i <= count,
            project.wf(),
            frames@.len() == i,
            all_on_canvas(*project, frames@),
            forall|k: int|
                0 <= k < i ==> (#[trigger] frames@[k])@ == plain(
                    project.width as int,
                    project.height as int,
                    (Rgba { r: 0, g: 0, b: 0, a: 255 }),
                ),
        decreases count - i,
    {
        frames.push(Frame::black(project.width, project.height));
        i += 1;
    }
    assert(shown(frames@) =~= tracks_shown(c, *project, pv, count as nat, t0, 0));
    let mut ti: usize = 0;
    while ti < project.tracks.len()
        invariant
            c.sound(),
            project.wf(),
            pv == plan_view(plan@),
            plan_fits(*project, pv),
            ti <= project.tracks@.len(),
            frames@.len() == count,
            all_on_canvas(*project, frames@),
            shown(frames@) == tracks_shown(c, *project, pv, count as nat, t0, ti as int),
        decreases project.tracks.len() - ti,
    {
        if !project.tracks[ti].muted && has_entry(plan, ti) && shows(project, plan, ti) {
            render_track(c, project, plan, ti, &mut frames, t0);
        }
        ti += 1;
    }
    let ghost mixed = shown(frames@);
    let chain: &Vec<AvEffect> = &project.master_effects;
    let mut states: Vec<VideoFxState> = video_chain_states(c, chain, project.fps);
    proof {
        lemma_fresh_ready(c, *project, chain@, states@);
    }
    let mut k: usize = 0;
    while k < count
        invariant
            c.sound(),
            k <= count,
            *chain == project.master_effects,
            mixed.len() == count,
            frames@.len() == count,
            all_on_canvas(*project, frames@),
            states@.len() == chain@.len(),
            states_ready(*project, states@),
            (video_states_view(states@), shown(frames@)) == master_frames(
                c,
                *project,
                mixed,
                k as int,
            ),
        decreases count - k,
    {
        let ghost before = frames@;
        assert(shown(frames@)[k as int] == frames@[k as int]@);
        run_chain(c, project, &mut frames[k], chain, &mut states);
        assert(shown(frames@) =~= shown(before).update(k as int, frames@[k as int]@));
        k += 1;
    }
    frames
}

// ------------------------------------------------------------------- output

#[derive(Debug)]
pub struct RenderOutput {
    pub audio: StereoBuffer,
    pub frames: Vec<Frame>,
    pub fps: F32,
    /// All grain events rendered, per clip (flattened across sources).
    pub events: Vec<Vec<GrainEvent>>,
}

/// The events of the first `n` parts of a clip, one after the other.
pub open spec fn flattened(parts: Seq<(usize, Seq<GrainEvent>)>, n: int) -> Seq<GrainEvent>
    decreases n,
{
    if n <= 0 {
        seq![]
    } else {
        flattened(parts, n - 1) + parts[n - 1].1
    }
}

fn flatten(parts: &Vec<(usize, Vec<GrainEvent>)>) -> (r: Vec<GrainEvent>)
    ensures
        r@ == flattened(parts_view(parts@), parts@.len() as int),
{
    let ghost pv = parts_view(parts@);
    let mut out: Vec<GrainEvent> = Vec::new();
    let mut i: usize = 0;
    while i < parts.len()
        invariant
            pv == parts_view(parts@),
            i <= parts@.len(),
            out@ =~= flattened(pv, i as int),
        decreases parts.len() - i,
    {
        assert(pv[i as int].1 == parts@[i as int].1@);
        let mut more: Vec<GrainEvent> = parts[i].1.clone();
        assert(more@ =~= parts@[i as int].1@);
        out.append(&mut more);
        i += 1;
    }
    out
}

/// The window of a render: where it starts and how long it is, seconds.
pub open spec fn window<K: Fn(Op, Width, u64, u64) -> u64>(c: &Calc<K>, bpm: F64, from_beat: F64, to_beat: F64) -> (F64, F64) {
    let t0 = secs_of_beats(c, bpm, from_beat);
    let t1 = secs_of_beats(c, bpm, to_beat.max(from_beat.add(c, double(0x3f50_624d_d2f1_a9fc))));
    (t0, t1.sub(c, t0))
}

/// Render `[from_beat, to_beat)` of the project.
pub fn render_project<K: Fn(Op, Width, u64, u64) -> u64>(c: &Calc<K>, project: &Project, from_beat: F64, to_beat: F64) -> (r: RenderOutput)
    requires
        c.sound(),
        project.wf(),
        chains_fit(c, *project),
    ensures
        r.fps == project.fps,
        r.audio.wf(),
        r.audio.sample_rate == project.sample_rate,
        all_on_canvas(*project, r.frames@),
        ({
            let (t0, len) = window(c, project.bpm, from_beat, to_beat);
            let plan = planned(c, *project);
            let samples = len.mul(c, F64::of_count(c, project.sample_rate as u64)).ceil(c).to_size(c);
            let count = len.mul(c, project.fps.to_f64(c)).ceil(c).to_size(c);
            &&& r.audio.left@.len() == samples
            &&& stereo(r.audio) == project_sound(c, *project, plan, samples as nat, t0)
            &&& r.frames@.len() == count
            &&& shown(r.frames@) == project_shown(c, *project, plan, count as nat, t0)
            &&& r.events@.len() == plan.len()
            &&& forall|i: int|
                0 <= i < plan.len() ==> (#[trigger] r.events@[i])@ == flattened(
                    plan[i].parts,
                    plan[i].parts.len() as int,
                )
        }),
{
    let t0: F64 = project.beats_to_secs(c, from_beat);
    let t1: F64 = project.beats_to_secs(c, to_beat.max(from_beat.add(c, double(0x3f50_624d_d2f1_a9fc))));
    let len: F64 = t1.sub(c, t0);
    let plan: Vec<ClipPlan> = plan_project(c, project);
    let samples: usize = len.mul(c, F64::of_count(c, project.sample_rate as u64)).ceil(c).to_size(c);
    let count: usize = len.mul(c, project.fps.to_f64(c)).ceil(c).to_size(c);
    let audio: StereoBuffer = render_sound(c, project, &plan, samples, t0);
    let frames: Vec<Frame> = render_frames(c, project, &plan, count, t0);
    let ghost pv = plan_view(plan@);
    let mut events: Vec<Vec<GrainEvent>> = Vec::new();
    let mut i: usize = 0;
    while i < plan.len()
        invariant
            pv == plan_view(plan@),
            i <= plan@.len(),
            events@.len() == i,
            forall|k: int|
                0 <= k < i ==> (#[trigger] events@[k])@ == flattened(
                    pv[k].parts,
                    pv[k].parts.len() as int,
                ),
        decreases plan.len() - i,
    {
        assert(pv[i as int] == plan@[i as int]@);
        events.push(flatten(&plan[i].parts));
        i += 1;
    }
    assert(pv.len() == plan@.len());
    RenderOutput { audio, frames, fps: project.fps, events }
}

// --------------------------------------------------------------------- laws

/// A muted track is neither heard nor seen: with it muted, the mix and the frames
/// after it are those before it.
pub proof fn law_muted_tracks_are_left_out<K: Fn(Op, Width, u64, u64) -> u64>(c: &Calc<K>, project: Project, plan: Seq<PlanView>, len: nat, count: nat, t0: F64, n: int)
    requires
        0 < n <= project.tracks@.len(),
        project.tracks@[n - 1].muted,
    ensures
        tracks_mixed(c, project, plan, len, t0, n) == tracks_mixed(
            c,
            project,
            plan,
            len,
            t0,
            n - 1,
        ),
        tracks_shown(c, project, plan, count, t0, n) == tracks_shown(
            c,
            project,
            plan,
            count,
            t0,
            n - 1,
        ),
{
}

/// Every entry of a project's plan names one of its clips, and holds what that clip
/// plays.
pub proof fn law_plans_hold_the_clips<K: Fn(Op, Width, u64, u64) -> u64>(c: &Calc<K>, project: Project, n: int)
    requires
        0 <= n <= project.tracks@.len(),
    ensures
        plan_fits(project, planned_tracks(c, project, n)),
        forall|i: int|
            0 <= i < planned_tracks(c, project, n).len() ==> ({
                let p = #[trigger] planned_tracks(c, project, n)[i];
                clip_parts(c, project, project.tracks@[p.track].clips@[p.clip]) == Some(p.parts)
            }),
    decreases n,
{
    if n > 0 {
        law_plans_hold_the_clips(c, project, n - 1);
        let m = project.tracks@[n - 1].clips@.len() as int;
        lemma_planned_clips(c, project, n - 1, m);
        let a = planned_tracks(c, project, n - 1);
        let b = planned_clips(c, project, n - 1, m);
        assert forall|i: int| 0 <= i < (a + b).len() implies ({
            let p = #[trigger] (a + b)[i];
            &&& 0 <= p.track < project.tracks@.len()
            &&& 0 <= p.clip < project.tracks@[p.track].clips@.len()
            &&& clip_parts(c, project, project.tracks@[p.track].clips@[p.clip]) == Some(p.parts)
        }) by {
            if i < a.len() {
                assert((a + b)[i] == a[i]);
            } else {
                assert((a + b)[i] == b[i - a.len()]);
            }
        }
    }
}

proof fn lemma_planned_clips<K: Fn(Op, Width, u64, u64) -> u64>(c: &Calc<K>, project: Project, ti: int, n: int)
    requires
        0 <= ti < project.tracks@.len(),
        0 <= n <= project.tracks@[ti].clips@.len(),
    ensures
        forall|i: int|
            0 <= i < planned_clips(c, project, ti, n).len() ==> ({
                let p = #[trigger] planned_clips(c, project, ti, n)[i];
                &&& p.track == ti
                &&& 0 <= p.clip < n
                &&& clip_parts(c, project, project.tracks@[p.track].clips@[p.clip]) == Some(p.parts)
            }),
    decreases n,
{
    if n > 0 {
        lemma_planned_clips(c, project, ti, n - 1);
    }
}

} // verus!
