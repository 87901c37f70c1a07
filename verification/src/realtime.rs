//! Realtime audio engine for performance playback: renders the project in
//! consecutive small blocks with persistent effect state, so the audio a
//! device callback drains is (sample-exactly) the offline render, streamed.
//! Supports a beat-quantized loop region for live use, and pad hits that sound
//! whether or not the arrangement runs.
use crate::audio::{
    grain_samples, grain_start, render_grains_audio, soft_clipped, AudioClip, StereoBuffer,
};
use crate::calc::{Calc, Op, Width};
use crate::dsp::FilterSpec;
use crate::fx::AvEffect;
use crate::fx_audio::{
    audio_chain_states, chain_block, chain_fits, compressors, fresh_states, law_chains_keep_length,
    law_chains_stream, process_audio_chain, states_view, states_wf, AudioFxState, FxView,
};
use crate::grain::GrainEvent;
use crate::num::{double, F32, F64};
use crate::render::{
    add_into, buses_summed, clip_sound, has_entry, law_plans_hold_the_clips, leveled, part_mixed, parts_mixed, plan_fits,
    plan_project, plan_view, planned, plays, project_sound, sample_beat, silent_buffer, stereo,
    track_mixed, track_sound, tracks_mixed, ClipPlan, PlanView, Sound, Stereo,
};
use crate::seq::parts_view;
use crate::spectral::zeros;
use crate::timeline::{beats_of_secs, secs_of_beats, Clip, Project, Track};
use std::sync::Arc;
use vstd::prelude::*;

verus! {

// -------------------------------------------------------------------- model

/// A track's bus with a clip's sound in it, and the clip's effect states after it.
pub open spec fn clip_streamed<K: Fn(Op, Width, u64, u64) -> u64>(c: &Calc<K>, project: Project, clip: Clip, parts: Seq<(usize, Seq<GrainEvent>)>, states: Seq<FxView>, bus: Stereo, t0: F64) -> (Seq<FxView>, Stereo) {
    let n = parts.len() as int;
    let filters = clip.audio_filters@;
    let rate = project.sample_rate;
    if clip.effects@.len() == 0 {
        (states, parts_mixed(c, project, filters, parts, bus, rate, t0, n))
    } else {
        let dry = parts_mixed(
            c,
            project,
            filters,
            parts,
            Stereo::silent(bus.l.len()),
            rate,
            t0,
            n,
        );
        let (s, l, r) = chain_block(
            c,
            clip.effects@,
            states,
            dry.l,
            dry.r,
            clip.effects@.len() as int,
        );
        (s, buses_summed(c, bus, Stereo { l, r }))
    }
}

/// A track's bus after the first `n` entries of the plan, and the clips' states.
pub open spec fn track_streamed<K: Fn(Op, Width, u64, u64) -> u64>(c: &Calc<K>, project: Project, plan: Seq<PlanView>, ti: int, states: Seq<Seq<FxView>>, len: nat, t0: F64, n: int) -> (Seq<Seq<FxView>>, Stereo)
    decreases n,
{
    if n <= 0 {
        (states, Stereo::silent(len))
    } else {
        let (s, bus) = track_streamed(c, project, plan, ti, states, len, t0, n - 1);
        let p = plan[n - 1];
        if p.track == ti {
            let (own, next) = clip_streamed(
                c,
                project,
                project.tracks@[ti].clips@[p.clip],
                p.parts,
                s[n - 1],
                bus,
                t0,
            );
            (s.update(n - 1, own), next)
        } else {
            (s, bus)
        }
    }
}

/// The beat of sample number `i` of the timeline.
#[verifier::allow_in_spec]
pub fn stream_beat<K: Fn(Op, Width, u64, u64) -> u64>(c: &Calc<K>, bpm: F64, rate: u32, i: u64) -> F64
    requires
        c.sound(),
    returns
        (F64::of_count(c, i).div(c, F64::of_count(c, rate as u64)).mul(c, bpm.div(c, double(0x404e_0000_0000_0000)))),
{
    F64::of_count(c, i).div(c, F64::of_count(c, rate as u64)).mul(c, bpm.div(c, double(0x404e_0000_0000_0000)))
}

/// The time of sample number `i`, seconds.
#[verifier::allow_in_spec]
pub fn stream_time<K: Fn(Op, Width, u64, u64) -> u64>(c: &Calc<K>, rate: u32, i: u64) -> F64
    requires
        c.sound(),
    returns
        (F64::of_count(c, i).div(c, F64::of_count(c, rate as u64))),
{
    F64::of_count(c, i).div(c, F64::of_count(c, rate as u64))
}

/// A bus at the track's level, from sample number `pos` of the timeline on.
pub open spec fn level_streamed<K: Fn(Op, Width, u64, u64) -> u64>(c: &Calc<K>, master: Seq<F32>, bus: Seq<F32>, track: Track, bpm: F64, rate: u32, pos: u64) -> Seq<F32> {
    Seq::new(
        master.len(),
        |i: int|
            master[i].add(
                c,
                bus[i].mul(
                    c,
                    track.level_on(c, stream_beat(c, bpm, rate, pos.wrapping_add(i as u64))),
                ),
            ),
    )
}

/// The states of all effects.
pub struct Rack {
    pub clips: Seq<Seq<FxView>>,
    pub tracks: Seq<Seq<FxView>>,
    pub master: Seq<FxView>,
}

/// The master bus after the first `n` tracks, and the states after them.
pub open spec fn tracks_streamed<K: Fn(Op, Width, u64, u64) -> u64>(c: &Calc<K>, project: Project, plan: Seq<PlanView>, rack: Rack, len: nat, pos: u64, n: int) -> (Rack, Stereo)
    decreases n,
{
    if n <= 0 {
        (rack, Stereo::silent(len))
    } else {
        let (s, master) = tracks_streamed(c, project, plan, rack, len, pos, n - 1);
        let ti = n - 1;
        let track = project.tracks@[ti];
        if track.muted {
            (s, master)
        } else {
            let (clips, bus) = track_streamed(
                c,
                project,
                plan,
                ti,
                s.clips,
                len,
                stream_time(c, project.sample_rate, pos),
                plan.len() as int,
            );
            if !plays(plan, ti) {
                (Rack { clips, ..s }, master)
            } else {
                let (own, l, r) = chain_block(
                    c,
                    track.effects@,
                    s.tracks[ti],
                    bus.l,
                    bus.r,
                    track.effects@.len() as int,
                );
                (
                    Rack { clips, tracks: s.tracks.update(ti, own), ..s },
                    Stereo {
                        l: level_streamed(
                            c,
                            master.l,
                            l,
                            track,
                            project.bpm,
                            project.sample_rate,
                            pos,
                        ),
                        r: level_streamed(
                            c,
                            master.r,
                            r,
                            track,
                            project.bpm,
                            project.sample_rate,
                            pos,
                        ),
                    },
                )
            }
        }
    }
}

/// A pad hit: what it plays, and the source it plays it from.
#[derive(Clone, Copy, Debug)]
pub struct LiveHit {
    pub source: usize,
    pub event: GrainEvent,
}

/// A bus with the first `n` pad hits mixed in.
pub open spec fn live_mixed<K: Fn(Op, Width, u64, u64) -> u64>(c: &Calc<K>, project: Project, live: Seq<LiveHit>, bus: Stereo, t: F64, n: int) -> Stereo
    decreases n,
{
    if n <= 0 {
        bus
    } else {
        part_mixed(
            c,
            clip_sound(c, project, seq![], live[n - 1].source),
            seq![live[n - 1].event],
            live_mixed(c, project, live, bus, t, n - 1),
            project.sample_rate,
            t,
        )
    }
}

/// Whether a pad hit is over at a time.
pub open spec fn hit_over<K: Fn(Op, Width, u64, u64) -> u64>(c: &Calc<K>, rate: u32, hit: LiveHit, t: F64) -> bool {
    let r = F64::of_count(c, rate as u64);
    grain_start(c, hit.event, r, t) + grain_samples(c, hit.event, r) <= 0
}

/// The pad hits that are not over at a time.
pub open spec fn live_kept<K: Fn(Op, Width, u64, u64) -> u64>(c: &Calc<K>, rate: u32, live: Seq<LiveHit>, t: F64) -> Seq<LiveHit>
    decreases live.len(),
{
    if live.len() == 0 {
        live
    } else {
        let rest = live_kept(c, rate, live.drop_last(), t);
        if hit_over(c, rate, live.last(), t) {
            rest
        } else {
            rest.push(live.last())
        }
    }
}

/// What an engine is in the middle of.
pub struct Engine {
    pub rack: Rack,
    /// The playhead, samples from beat 0.
    pub pos: u64,
    pub loop_region: Option<(F64, F64)>,
    /// Whether the arrangement runs.
    pub transport: bool,
    pub live: Seq<LiveHit>,
    /// Samples since the engine started.
    pub live_pos: u64,
}

/// What a run of effects makes of the mix: the master effects and the soft clip.
pub open spec fn mastered<K: Fn(Op, Width, u64, u64) -> u64>(c: &Calc<K>, project: Project, states: Seq<FxView>, mix: Stereo) -> (Seq<FxView>, Stereo) {
    let chain = project.master_effects@;
    let (s, l, r) = chain_block(c, chain, states, mix.l, mix.r, chain.len() as int);
    (
        s,
        Stereo {
            l: l.map_values(|x: F32| soft_clipped(c, x)),
            r: r.map_values(|x: F32| soft_clipped(c, x)),
        },
    )
}

/// What an engine plays next, `n` samples of it, without looping.
#[verifier::opaque]
pub open spec fn segment<K: Fn(Op, Width, u64, u64) -> u64>(c: &Calc<K>, project: Project, plan: Seq<PlanView>, e: Engine, n: nat) -> (Engine, Stereo) {
    let (rack, mix) = if e.transport {
        tracks_streamed(c, project, plan, e.rack, n, e.pos, project.tracks@.len() as int)
    } else {
        (e.rack, Stereo::silent(n))
    };
    let now = stream_time(c, project.sample_rate, e.live_pos);
    let bus = live_mixed(c, project, e.live, mix, now, e.live.len() as int);
    let (master, out) = mastered(c, project, rack.master, bus);
    let after = e.live_pos.wrapping_add(n as u64);
    (
        Engine {
            rack: Rack { master, ..rack },
            pos: if e.transport {
                e.pos.wrapping_add(n as u64)
            } else {
                e.pos
            },
            live: live_kept(c, project.sample_rate, e.live, stream_time(c, project.sample_rate, after)),
            live_pos: after,
            ..e
        },
        out,
    )
}

/// The sample number of a beat.
#[verifier::allow_in_spec]
pub fn beat_sample<K: Fn(Op, Width, u64, u64) -> u64>(c: &Calc<K>, bpm: F64, rate: u32, beat: F64) -> u64
    requires
        c.sound(),
    returns
        (secs_of_beats(c, bpm, beat).mul(c, F64::of_count(c, rate as u64)).round(c).to_u64(c)),
{
    secs_of_beats(c, bpm, beat).mul(c, F64::of_count(c, rate as u64)).round(c).to_u64(c)
}

/// The loop in force, if any: its start and end, sample numbers.
pub open spec fn loop_bounds<K: Fn(Op, Width, u64, u64) -> u64>(c: &Calc<K>, project: Project, e: Engine) -> Option<(u64, u64)> {
    match e.loop_region {
        Some((from, to)) => if e.transport && from.lt(to) {
            Some(
                (
                    beat_sample(c, project.bpm, project.sample_rate, from.max(double(0))),
                    beat_sample(c, project.bpm, project.sample_rate, to),
                ),
            )
        } else {
            None
        },
        None => None,
    }
}

/// Whether a loop is at least one sample long.
pub open spec fn loop_plays<K: Fn(Op, Width, u64, u64) -> u64>(c: &Calc<K>, project: Project, region: Option<(F64, F64)>) -> bool {
    match region {
        Some((from, to)) => from.lt(to) ==> beat_sample(
            c,
            project.bpm,
            project.sample_rate,
            from.max(double(0)),
        ) < beat_sample(c, project.bpm, project.sample_rate, to),
        None => true,
    }
}

/// An engine with the playhead back at the loop's start where it has reached the end.
pub open spec fn wrapped<K: Fn(Op, Width, u64, u64) -> u64>(c: &Calc<K>, project: Project, e: Engine) -> Engine {
    match loop_bounds(c, project, e) {
        Some((from, to)) => if e.pos >= to {
            Engine { pos: from, ..e }
        } else {
            e
        },
        None => e,
    }
}

/// How many of `n` samples come before the loop's end.
pub open spec fn until_wrap<K: Fn(Op, Width, u64, u64) -> u64>(c: &Calc<K>, project: Project, e: Engine, n: nat) -> nat {
    match loop_bounds(c, project, e) {
        Some((from, to)) => if e.pos < to && to - e.pos < n {
            (to - e.pos) as nat
        } else {
            n
        },
        None => n,
    }
}

/// What an engine plays next, `n` samples of it, looping.
pub open spec fn block<K: Fn(Op, Width, u64, u64) -> u64>(c: &Calc<K>, project: Project, plan: Seq<PlanView>, e: Engine, n: nat) -> (Engine, Stereo)
    decreases n,
{
    if n == 0 {
        (e, Stereo::silent(0))
    } else {
        let at = wrapped(c, project, e);
        let m = until_wrap(c, project, at, n);
        if m == 0 || m > n {
            (at, Stereo::silent(0))
        } else {
            let (next, a) = segment(c, project, plan, at, m);
            let (last, b) = block(c, project, plan, next, (n - m) as nat);
            (last, Stereo { l: a.l + b.l, r: a.r + b.r })
        }
    }
}

// ------------------------------------------------------------------- engine

#[derive(Debug)]
pub struct RealtimeAudio {
    pub project: Project,
    pub plan: Vec<ClipPlan>,
    /// What each part of the plan reads (clip audio_filters applied once).
    pub sounds: Vec<Vec<Option<Arc<AudioClip>>>>,
    pub clip_states: Vec<Vec<AudioFxState>>,
    pub track_states: Vec<Vec<AudioFxState>>,
    pub master_states: Vec<AudioFxState>,
    /// Absolute playhead in samples from beat 0.
    pub sample_pos: u64,
    /// Loop region in beats (start, end), if looping.
    pub loop_region: Option<(F64, F64)>,
    /// Whether the arrangement runs; pads sound either way.
    pub transport: bool,
    pub live: Vec<LiveHit>,
    /// Samples since the engine started.
    pub live_pos: u64,
}

/// What a sound that may be missing holds.
pub open spec fn sound_view(s: Option<Arc<AudioClip>>) -> Option<Sound> {
    match s {
        Some(a) => Some(Sound { samples: a.samples@, rate: a.sample_rate }),
        None => None,
    }
}

/// Whether the sounds are those that the parts of a clip read.
pub open spec fn sounds_fit<K: Fn(Op, Width, u64, u64) -> u64>(c: &Calc<K>, project: Project, filters: Seq<FilterSpec>, parts: Seq<(usize, Seq<GrainEvent>)>, sounds: Seq<Option<Arc<AudioClip>>>) -> bool {
    &&& sounds.len() == parts.len()
    &&& forall|k: int|
        0 <= k < parts.len() ==> sound_view(#[trigger] sounds[k]) == clip_sound(
            c,
            project,
            filters,
            parts[k].0,
        )
}

/// What the states of several chains hold.
pub open spec fn racks_view(states: Seq<Vec<AudioFxState>>) -> Seq<Seq<FxView>> {
    states.map_values(|s: Vec<AudioFxState>| states_view(s@))
}

/// Whether a chain's states are those for it.
pub open spec fn rack_fits(chain: Seq<AvEffect>, states: Seq<AudioFxState>) -> bool {
    states_wf(states) && states.len() == chain.len() && chain_fits(chain, states_view(states))
}

impl RealtimeAudio {
    /// What the engine is in the middle of.
    pub open spec fn engine(self) -> Engine {
        Engine {
            rack: Rack {
                clips: racks_view(self.clip_states@),
                tracks: racks_view(self.track_states@),
                master: states_view(self.master_states@),
            },
            pos: self.sample_pos,
            loop_region: self.loop_region,
            transport: self.transport,
            live: self.live@,
            live_pos: self.live_pos,
        }
    }

    /// The plan is the project's, and every chain has its states.
    pub open spec fn wf<K: Fn(Op, Width, u64, u64) -> u64>(self, c: &Calc<K>) -> bool {
        let plan = plan_view(self.plan@);
        &&& self.project.wf()
        &&& plan == planned(c, self.project)
        &&& plan_fits(self.project, plan)
        &&& self.sounds@.len() == plan.len()
        &&& self.clip_states@.len() == plan.len()
        &&& forall|i: int|
            0 <= i < plan.len() ==> sounds_fit(
                c,
                self.project,
                self.project.tracks@[plan[i].track].clips@[plan[i].clip].audio_filters@,
                plan[i].parts,
                (#[trigger] self.sounds@[i])@,
            )
        &&& forall|i: int|
            0 <= i < plan.len() ==> rack_fits(
                self.project.tracks@[plan[i].track].clips@[plan[i].clip].effects@,
                (#[trigger] self.clip_states@[i])@,
            )
        &&& self.track_states@.len() == self.project.tracks@.len()
        &&& forall|i: int|
            0 <= i < self.project.tracks@.len() ==> rack_fits(
                self.project.tracks@[i].effects@,
                (#[trigger] self.track_states@[i])@,
            )
        &&& rack_fits(self.project.master_effects@, self.master_states@)
    }
}

/// The engine of a project before its first sample.
pub open spec fn fresh_engine<K: Fn(Op, Width, u64, u64) -> u64>(c: &Calc<K>, project: Project, start_beat: F64, loop_region: Option<(F64, F64)>) -> Engine {
    let rate = project.sample_rate;
    Engine {
        rack: Rack {
            clips: planned(c, project).map_values(
                |p: PlanView|
                    fresh_states(c, project.tracks@[p.track].clips@[p.clip].effects@, rate),
            ),
            tracks: project.tracks@.map_values(|t: Track| fresh_states(c, t.effects@, rate)),
            master: fresh_states(c, project.master_effects@, rate),
        },
        pos: beat_sample(c, project.bpm, rate, start_beat),
        loop_region,
        transport: true,
        live: seq![],
        live_pos: 0,
    }
}

fn resolve<K: Fn(Op, Width, u64, u64) -> u64>(c: &Calc<K>, project: &Project, filters: &Vec<FilterSpec>, source: usize) -> (r: Option<Arc<AudioClip>>)
    requires
        c.sound(),
    ensures
        sound_view(r) == clip_sound(c, *project, filters@, source),
{
    if source >= project.sources.len() {
        return None;
    }
    match &project.sources[source].audio {
        Some(a) => {
            if filters.len() == 0 {
                Some(a.clone())
            } else {
                Some(Arc::new(a.filtered(c, filters)))
            }
        },
        None => None,
    }
}

fn resolve_parts<K: Fn(Op, Width, u64, u64) -> u64>(c: &Calc<K>, project: &Project, filters: &Vec<FilterSpec>, parts: &Vec<(usize, Vec<GrainEvent>)>) -> (r: Vec<Option<Arc<AudioClip>>>)
    requires
        c.sound(),
    ensures
        sounds_fit(c, *project, filters@, parts_view(parts@), r@),
{
    let ghost pv = parts_view(parts@);
    let mut out: Vec<Option<Arc<AudioClip>>> = Vec::new();
    let mut i: usize = 0;
    while i < parts.len()
        invariant
            c.sound(),
            pv == parts_view(parts@),
            i <= parts@.len(),
            out@.len() == i,
            forall|k: int|
                0 <= k < i ==> sound_view(#[trigger] out@[k]) == clip_sound(
                    c,
                    *project,
                    filters@,
                    pv[k].0,
                ),
        decreases parts.len() - i,
    {
        assert(pv[i as int].0 == parts@[i as int].0);
        out.push(resolve(c, project, filters, parts[i].0));
        i += 1;
    }
    out
}

fn fresh_rack<K: Fn(Op, Width, u64, u64) -> u64>(c: &Calc<K>, chain: &Vec<AvEffect>, rate: u32) -> (r: Vec<AudioFxState>)
    requires
        c.sound(),
    ensures
        rack_fits(chain@, r@),
        states_view(r@) == fresh_states(c, chain@, rate),
{
    let r: Vec<AudioFxState> = audio_chain_states(c, chain, rate);
    assert(states_view(r@).len() == r@.len());
    r
}

impl RealtimeAudio {
    pub fn new<K: Fn(Op, Width, u64, u64) -> u64>(c: &Calc<K>, project: Project, start_beat: F64, loop_region: Option<(F64, F64)>) -> (r: RealtimeAudio)
        requires
            c.sound(),
            project.wf(),
        ensures
            r.wf(c),
            r.project == project,
            r.engine() == fresh_engine(c, project, start_beat, loop_region),
    {
        let plan: Vec<ClipPlan> = plan_project(c, &project);
        let rate: u32 = project.sample_rate;
        let ghost pv = plan_view(plan@);
        let ghost want = fresh_engine(c, project, start_beat, loop_region).rack;
        let mut sounds: Vec<Vec<Option<Arc<AudioClip>>>> = Vec::new();
        let mut clip_states: Vec<Vec<AudioFxState>> = Vec::new();
        let mut i: usize = 0;
        while i < plan.len()
            invariant
                c.sound(),
                pv == plan_view(plan@),
                pv == planned(c, project),
                plan_fits(project, pv),
                rate == project.sample_rate,
                i <= plan@.len(),
                sounds@.len() == i,
                clip_states@.len() == i,
                want == fresh_engine(c, project, start_beat, loop_region).rack,
                forall|k: int|
                    0 <= k < i ==> sounds_fit(
                        c,
                        project,
                        project.tracks@[pv[k].track].clips@[pv[k].clip].audio_filters@,
                        pv[k].parts,
                        (#[trigger] sounds@[k])@,
                    ),
                forall|k: int|
                    0 <= k < i ==> rack_fits(
                        project.tracks@[pv[k].track].clips@[pv[k].clip].effects@,
                        (#[trigger] clip_states@[k])@,
                    ),
                racks_view(clip_states@) =~= want.clips.take(i as int),
            decreases plan.len() - i,
        {
            let p: &ClipPlan = &plan[i];
            assert(pv[i as int] == p@);
            let clip: &Clip = &project.tracks[p.track].clips[p.clip_index];
            sounds.push(resolve_parts(c, &project, &clip.audio_filters, &p.parts));
            let ghost before = clip_states@;
            let s: Vec<AudioFxState> = fresh_rack(c, &clip.effects, rate);
            let ghost sv = states_view(s@);
            clip_states.push(s);
            assert(racks_view(clip_states@) =~= racks_view(before).push(sv));
            i += 1;
        }
        let mut track_states: Vec<Vec<AudioFxState>> = Vec::new();
        let mut t: usize = 0;
        while t < project.tracks.len()
            invariant
                c.sound(),
                rate == project.sample_rate,
                t <= project.tracks@.len(),
                track_states@.len() == t,
                want == fresh_engine(c, project, start_beat, loop_region).rack,
                forall|k: int|
                    0 <= k < t ==> rack_fits(
                        project.tracks@[k].effects@,
                        (#[trigger] track_states@[k])@,
                    ),
                racks_view(track_states@) =~= want.tracks.take(t as int),
            decreases project.tracks.len() - t,
        {
            let ghost before = track_states@;
            let s: Vec<AudioFxState> = fresh_rack(c, &project.tracks[t].effects, rate);
            let ghost sv = states_view(s@);
            track_states.push(s);
            assert(racks_view(track_states@) =~= racks_view(before).push(sv));
            t += 1;
        }
        let master_states: Vec<AudioFxState> = fresh_rack(c, &project.master_effects, rate);
        let sample_pos: u64 = beat_sample(c, project.bpm, rate, start_beat);
        assert(pv.len() == plan@.len());
        assert(racks_view(clip_states@) =~= want.clips);
        assert(racks_view(track_states@) =~= want.tracks);
        let live: Vec<LiveHit> = Vec::new();
        assert(live@ =~= seq![]);
        RealtimeAudio {
            project,
            plan,
            sounds,
            clip_states,
            track_states,
            master_states,
            sample_pos,
            loop_region,
            transport: true,
            live,
            live_pos: 0,
        }
    }

    pub fn sample_rate(&self) -> (r: u32)
        ensures
            r == self.project.sample_rate,
    {
        self.project.sample_rate
    }

    pub fn playhead_secs<K: Fn(Op, Width, u64, u64) -> u64>(&self, c: &Calc<K>) -> (r: F64)
        requires
            c.sound(),
        ensures
            r == stream_time(c, self.project.sample_rate, self.sample_pos),
    {
        stream_time(c, self.project.sample_rate, self.sample_pos)
    }

    pub fn playhead_beats<K: Fn(Op, Width, u64, u64) -> u64>(&self, c: &Calc<K>) -> (r: F64)
        requires
            c.sound(),
        ensures
            r == beats_of_secs(
                c,
                self.project.bpm,
                stream_time(c, self.project.sample_rate, self.sample_pos),
            ),
    {
        self.project.secs_to_beats(c, self.playhead_secs(c))
    }

    pub fn seek_beats<K: Fn(Op, Width, u64, u64) -> u64>(&mut self, c: &Calc<K>, beat: F64)
        requires
            c.sound(),
        ensures
            final(self).sample_pos == beat_sample(
                c,
                old(self).project.bpm,
                old(self).project.sample_rate,
                beat.max(double(0)),
            ),
            *final(self) == (RealtimeAudio { sample_pos: final(self).sample_pos, ..*old(self) }),
    {
        self.sample_pos = beat_sample(
            c,
            self.project.bpm,
            self.project.sample_rate,
            beat.max(double(0)),
        );
    }

    /// The clock of pad hits: how long the engine has run, seconds.
    pub fn live_now_secs<K: Fn(Op, Width, u64, u64) -> u64>(&self, c: &Calc<K>) -> (r: F64)
        requires
            c.sound(),
        ensures
            r == stream_time(c, self.project.sample_rate, self.live_pos),
    {
        stream_time(c, self.project.sample_rate, self.live_pos)
    }

    /// Play a pad hit. Its onset is on the clock of pad hits.
    pub fn trigger_live(&mut self, source: usize, event: GrainEvent)
        ensures
            final(self).live@ == old(self).live@.push((LiveHit { source, event })),
            *final(self) == (RealtimeAudio { live: final(self).live, ..*old(self) }),
    {
        self.live.push(LiveHit { source, event });
    }
}

// ------------------------------------------------------------------ playing

fn mix_sounds<K: Fn(Op, Width, u64, u64) -> u64>(c: &Calc<K>, Ghost(project): Ghost<Project>, Ghost(filters): Ghost<Seq<FilterSpec>>, sounds: &Vec<Option<Arc<AudioClip>>>, parts: &Vec<(usize, Vec<GrainEvent>)>, bus: &mut StereoBuffer, t0: F64)
    requires
        c.sound(),
        old(bus).wf(),
        sounds_fit(c, project, filters, parts_view(parts@), sounds@),
    ensures
        final(bus).wf(),
        final(bus).sample_rate == old(bus).sample_rate,
        final(bus).left@.len() == old(bus).left@.len(),
        stereo(*final(bus)) == parts_mixed(
            c,
            project,
            filters,
            parts_view(parts@),
            stereo(*old(bus)),
            old(bus).sample_rate,
            t0,
            parts@.len() as int,
        ),
{
    let ghost first = stereo(*bus);
    let ghost rate = bus.sample_rate;
    let ghost pv = parts_view(parts@);
    let mut i: usize = 0;
    while i < parts.len()
        invariant
            c.sound(),
            pv == parts_view(parts@),
            i <= parts@.len(),
            bus.wf(),
            bus.sample_rate == rate,
            bus.left@.len() == first.l.len(),
            sounds_fit(c, project, filters, pv, sounds@),
            stereo(*bus) == parts_mixed(c, project, filters, pv, first, rate, t0, i as int),
        decreases parts.len() - i,
    {
        assert(pv[i as int] == (parts@[i as int].0, parts@[i as int].1@));
        assert(sound_view(sounds@[i as int]) == clip_sound(c, project, filters, pv[i as int].0));
        proof {
            lemma_part_len(c, sound_view(sounds@[i as int]), pv[i as int].1, stereo(*bus), rate, t0);
        }
        match &sounds[i] {
            Some(audio) => {
                render_grains_audio(c, audio, &parts[i].1, bus, t0);
            },
            None => {},
        }
        i += 1;
    }
}

proof fn lemma_part_len<K: Fn(Op, Width, u64, u64) -> u64>(c: &Calc<K>, sound: Option<Sound>, events: Seq<GrainEvent>, bus: Stereo, rate: u32, t0: F64)
    ensures
        part_mixed(c, sound, events, bus, rate, t0).l.len() == bus.l.len(),
        part_mixed(c, sound, events, bus, rate, t0).r.len() == bus.r.len(),
    decreases events.len(),
{
    if events.len() > 0 {
        lemma_part_len(c, sound, events.drop_last(), bus, rate, t0);
    }
}

proof fn lemma_parts_len<K: Fn(Op, Width, u64, u64) -> u64>(c: &Calc<K>, project: Project, filters: Seq<FilterSpec>, parts: Seq<(usize, Seq<GrainEvent>)>, bus: Stereo, rate: u32, t0: F64, n: int)
    ensures
        parts_mixed(c, project, filters, parts, bus, rate, t0, n).l.len() == bus.l.len(),
        parts_mixed(c, project, filters, parts, bus, rate, t0, n).r.len() == bus.r.len(),
    decreases n,
{
    if n > 0 {
        lemma_parts_len(c, project, filters, parts, bus, rate, t0, n - 1);
        lemma_part_len(
            c,
            clip_sound(c, project, filters, parts[n - 1].0),
            parts[n - 1].1,
            parts_mixed(c, project, filters, parts, bus, rate, t0, n - 1),
            rate,
            t0,
        );
    }
}

fn stream_clip<K: Fn(Op, Width, u64, u64) -> u64>(c: &Calc<K>, project: &Project, clip: &Clip, sounds: &Vec<Option<Arc<AudioClip>>>, parts: &Vec<(usize, Vec<GrainEvent>)>, states: &mut Vec<AudioFxState>, bus: &mut StereoBuffer, t0: F64)
    requires
        c.sound(),
        old(bus).wf(),
        old(bus).sample_rate == project.sample_rate,
        sounds_fit(c, *project, clip.audio_filters@, parts_view(parts@), sounds@),
        rack_fits(clip.effects@, old(states)@),
    ensures
        final(bus).wf(),
        final(bus).sample_rate == project.sample_rate,
        final(bus).left@.len() == old(bus).left@.len(),
        rack_fits(clip.effects@, final(states)@),
        (states_view(final(states)@), stereo(*final(bus))) == clip_streamed(
            c,
            *project,
            *clip,
            parts_view(parts@),
            states_view(old(states)@),
            stereo(*old(bus)),
            t0,
        ),
{
    if clip.effects.len() == 0 {
        mix_sounds(c, Ghost(*project), Ghost(clip.audio_filters@), sounds, parts, bus, t0);
    } else {
        let mut own: StereoBuffer = silent_buffer(bus.left.len(), bus.sample_rate);
        mix_sounds(c, Ghost(*project), Ghost(clip.audio_filters@), sounds, parts, &mut own, t0);
        assert(states_view(states@).len() == states@.len());
        process_audio_chain(c, &mut own.left, &mut own.right, &clip.effects, states);
        assert(states_view(states@).len() == states@.len());
        add_into(c, &mut bus.left, &own.left);
        add_into(c, &mut bus.right, &own.right);
    }
}

fn level_bus<K: Fn(Op, Width, u64, u64) -> u64>(c: &Calc<K>, master: &mut Vec<F32>, bus: &Vec<F32>, track: &Track, bpm: F64, rate: u32, pos: u64)
    requires
        c.sound(),
        bus@.len() == old(master)@.len(),
    ensures
        final(master)@ == level_streamed(c, old(master)@, bus@, *track, bpm, rate, pos),
{
    let ghost first = master@;
    let ghost want = level_streamed(c, first, bus@, *track, bpm, rate, pos);
    let mut i: usize = 0;
    while i < master.len()
        invariant
            c.sound(),
            i <= master@.len(),
            master@.len() == first.len(),
            bus@.len() == first.len(),
            want == level_streamed(c, first, bus@, *track, bpm, rate, pos),
            forall|k: int| 0 <= k < i ==> master@[k] == want[k],
            forall|k: int| i <= k < first.len() ==> master@[k] == first[k],
        decreases master.len() - i,
    {
        let level: F32 = track.level_at(c, stream_beat(c, bpm, rate, pos.wrapping_add(i as u64)));
        let v: F32 = master[i].add(c, bus[i].mul(c, level));
        master.set(i, v);
        i += 1;
    }
    assert(master@ =~= want);
}

impl RealtimeAudio {
    fn stream_track<K: Fn(Op, Width, u64, u64) -> u64>(&mut self, c: &Calc<K>, ti: usize, len: usize, t0: F64) -> (r: StereoBuffer)
        requires
            c.sound(),
            old(self).wf(c),
            ti < old(self).project.tracks@.len(),
        ensures
            final(self).wf(c),
            *final(self) == (RealtimeAudio { clip_states: final(self).clip_states, ..*old(self) }),
            r.wf(),
            r.sample_rate == old(self).project.sample_rate,
            r.left@.len() == len,
            (racks_view(final(self).clip_states@), stereo(r)) == track_streamed(
                c,
                old(self).project,
                plan_view(old(self).plan@),
                ti as int,
                racks_view(old(self).clip_states@),
                len as nat,
                t0,
                old(self).plan@.len() as int,
            ),
    {
        let ghost first = *self;
        let ghost pv = plan_view(self.plan@);
        let mut bus: StereoBuffer = silent_buffer(len, self.project.sample_rate);
        let mut i: usize = 0;
        while i < self.plan.len()
            invariant
                c.sound(),
                self.wf(c),
                *self == (RealtimeAudio { clip_states: self.clip_states, ..first }),
                pv == plan_view(self.plan@),
                ti < self.project.tracks@.len(),
                i <= self.plan@.len(),
                bus.wf(),
                bus.sample_rate == self.project.sample_rate,
                bus.left@.len() == len,
                (racks_view(self.clip_states@), stereo(bus)) == track_streamed(
                    c,
                    first.project,
                    pv,
                    ti as int,
                    racks_view(first.clip_states@),
                    len as nat,
                    t0,
                    i as int,
                ),
            decreases self.plan.len() - i,
        {
            assert(pv[i as int] == self.plan@[i as int]@);
            if self.plan[i].track == ti {
                let ghost before = *self;
                assert(rack_fits(
                    self.project.tracks@[ti as int].clips@[pv[i as int].clip].effects@,
                    self.clip_states@[i as int]@,
                ));
                assert(sounds_fit(
                    c,
                    self.project,
                    self.project.tracks@[ti as int].clips@[pv[i as int].clip].audio_filters@,
                    pv[i as int].parts,
                    self.sounds@[i as int]@,
                ));
                assert(racks_view(self.clip_states@)[i as int] == states_view(
                    self.clip_states@[i as int]@,
                ));
                let clip: &Clip = &self.project.tracks[ti].clips[self.plan[i].clip_index];
                stream_clip(
                    c,
                    &self.project,
                    clip,
                    &self.sounds[i],
                    &self.plan[i].parts,
                    &mut self.clip_states[i],
                    &mut bus,
                    t0,
                );
                proof {
                    assert(racks_view(self.clip_states@) =~= racks_view(before.clip_states@).update(
                        i as int,
                        states_view(self.clip_states@[i as int]@),
                    ));
                    assert forall|k: int| 0 <= k < pv.len() implies rack_fits(
                        self.project.tracks@[pv[k].track].clips@[pv[k].clip].effects@,
                        (#[trigger] self.clip_states@[k])@,
                    ) by {
                        if k != i {
                            assert(self.clip_states@[k] == before.clip_states@[k]);
                        }
                    }
                }
            }
            i += 1;
        }
        bus
    }

    fn stream_tracks<K: Fn(Op, Width, u64, u64) -> u64>(&mut self, c: &Calc<K>, len: usize) -> (r: StereoBuffer)
        requires
            c.sound(),
            old(self).wf(c),
        ensures
            final(self).wf(c),
            *final(self) == (RealtimeAudio {
                clip_states: final(self).clip_states,
                track_states: final(self).track_states,
                ..*old(self)
            }),
            r.wf(),
            r.sample_rate == old(self).project.sample_rate,
            r.left@.len() == len,
            (final(self).engine().rack, stereo(r)) == tracks_streamed(
                c,
                old(self).project,
                plan_view(old(self).plan@),
                old(self).engine().rack,
                len as nat,
                old(self).sample_pos,
                old(self).project.tracks@.len() as int,
            ),
    {
        let ghost first = *self;
        let ghost pv = plan_view(self.plan@);
        let t0: F64 = stream_time(c, self.project.sample_rate, self.sample_pos);
        let mut master: StereoBuffer = silent_buffer(len, self.project.sample_rate);
        let mut ti: usize = 0;
        while ti < self.project.tracks.len()
            invariant
                c.sound(),
                self.wf(c),
                *self == (RealtimeAudio {
                    clip_states: self.clip_states,
                    track_states: self.track_states,
                    ..first
                }),
                pv == plan_view(self.plan@),
                t0 == stream_time(c, first.project.sample_rate, first.sample_pos),
                ti <= self.project.tracks@.len(),
                master.wf(),
                master.sample_rate == self.project.sample_rate,
                master.left@.len() == len,
                (self.engine().rack, stereo(master)) == tracks_streamed(
                    c,
                    first.project,
                    pv,
                    first.engine().rack,
                    len as nat,
                    first.sample_pos,
                    ti as int,
                ),
            decreases self.project.tracks.len() - ti,
        {
            if !self.project.tracks[ti].muted {
                let mut bus: StereoBuffer = self.stream_track(c, ti, len, t0);
                if has_entry(&self.plan, ti) {
                    let ghost before = *self;
                    assert(rack_fits(
                        self.project.tracks@[ti as int].effects@,
                        self.track_states@[ti as int]@,
                    ));
                    assert(racks_view(self.track_states@)[ti as int] == states_view(
                        self.track_states@[ti as int]@,
                    ));
                    assert(states_view(self.track_states@[ti as int]@).len()
                        == self.track_states@[ti as int]@.len());
                    process_audio_chain(
                        c,
                        &mut bus.left,
                        &mut bus.right,
                        &self.project.tracks[ti].effects,
                        &mut self.track_states[ti],
                    );
                    proof {
                        assert(states_view(self.track_states@[ti as int]@).len()
                            == self.track_states@[ti as int]@.len());
                        assert(racks_view(self.track_states@) =~= racks_view(
                            before.track_states@,
                        ).update(ti as int, states_view(self.track_states@[ti as int]@)));
                        assert forall|k: int| 0 <= k < self.project.tracks@.len() implies rack_fits(
                            self.project.tracks@[k].effects@,
                            (#[trigger] self.track_states@[k])@,
                        ) by {
                            if k != ti {
                                assert(self.track_states@[k] == before.track_states@[k]);
                            }
                        }
                    }
                    level_bus(
                        c,
                        &mut master.left,
                        &bus.left,
                        &self.project.tracks[ti],
                        self.project.bpm,
                        self.project.sample_rate,
                        self.sample_pos,
                    );
                    level_bus(
                        c,
                        &mut master.right,
                        &bus.right,
                        &self.project.tracks[ti],
                        self.project.bpm,
                        self.project.sample_rate,
                        self.sample_pos,
                    );
                }
            }
            ti += 1;
        }
        master
    }

    fn mix_live<K: Fn(Op, Width, u64, u64) -> u64>(&self, c: &Calc<K>, bus: &mut StereoBuffer, t: F64)
        requires
            c.sound(),
            old(bus).wf(),
            old(bus).sample_rate == self.project.sample_rate,
        ensures
            final(bus).wf(),
            final(bus).sample_rate == self.project.sample_rate,
            final(bus).left@.len() == old(bus).left@.len(),
            stereo(*final(bus)) == live_mixed(
                c,
                self.project,
                self.live@,
                stereo(*old(bus)),
                t,
                self.live@.len() as int,
            ),
    {
        let ghost first = stereo(*bus);
        let mut i: usize = 0;
        while i < self.live.len()
            invariant
                c.sound(),
                i <= self.live@.len(),
                bus.wf(),
                bus.sample_rate == self.project.sample_rate,
                bus.left@.len() == first.l.len(),
                stereo(*bus) == live_mixed(c, self.project, self.live@, first, t, i as int),
            decreases self.live.len() - i,
        {
            let hit: LiveHit = self.live[i];
            let mut events: Vec<GrainEvent> = Vec::new();
            events.push(hit.event);
            assert(events@ =~= seq![hit.event]);
            proof {
                lemma_part_len(
                    c,
                    clip_sound(c, self.project, seq![], hit.source),
                    events@,
                    stereo(*bus),
                    bus.sample_rate,
                    t,
                );
            }
            if hit.source < self.project.sources.len() {
                match &self.project.sources[hit.source].audio {
                    Some(audio) => {
                        render_grains_audio(c, audio, &events, bus, t);
                    },
                    None => {},
                }
            }
            i += 1;
        }
    }

    fn drop_over<K: Fn(Op, Width, u64, u64) -> u64>(&mut self, c: &Calc<K>, t: F64)
        requires
            c.sound(),
        ensures
            final(self).live@ == live_kept(c, old(self).project.sample_rate, old(self).live@, t),
            *final(self) == (RealtimeAudio { live: final(self).live, ..*old(self) }),
    {
        let rate: u32 = self.project.sample_rate;
        let r: F64 = F64::of_count(c, rate as u64);
        let mut kept: Vec<LiveHit> = Vec::new();
        assert(self.live@.take(0) =~= seq![]);
        assert(kept@ =~= self.live@.take(0));
        let mut i: usize = 0;
        while i < self.live.len()
            invariant
                c.sound(),
                i <= self.live@.len(),
                r == F64::of_count(c, rate as u64),
                kept@ == live_kept(c, rate, self.live@.take(i as int), t),
            decreases self.live.len() - i,
        {
            let hit: LiveHit = self.live[i];
            assert(self.live@.take(i + 1).drop_last() =~= self.live@.take(i as int));
            let from: i64 = grain_start(c, hit.event, r, t);
            let n: i64 = grain_samples(c, hit.event, r);
            if !(from as i128 + n as i128 <= 0) {
                kept.push(hit);
            }
            i += 1;
        }
        assert(self.live@.take(i as int) =~= self.live@);
        self.live = kept;
    }

    /// Render the next `n` samples, without looping.
    fn play_segment<K: Fn(Op, Width, u64, u64) -> u64>(&mut self, c: &Calc<K>, n: usize) -> (r: StereoBuffer)
        requires
            c.sound(),
            old(self).wf(c),
        ensures
            final(self).wf(c),
            final(self).project == old(self).project,
            final(self).plan == old(self).plan,
            final(self).loop_region == old(self).loop_region,
            final(self).transport == old(self).transport,
            r.wf(),
            r.left@.len() == n,
            (final(self).engine(), stereo(r)) == segment(
                c,
                old(self).project,
                plan_view(old(self).plan@),
                old(self).engine(),
                n as nat,
            ),
    {
        proof {
            reveal(segment);
        }
        let mut bus: StereoBuffer = if self.transport {
            self.stream_tracks(c, n)
        } else {
            silent_buffer(n, self.project.sample_rate)
        };
        let now: F64 = self.live_now_secs(c);
        self.mix_live(c, &mut bus, now);
        assert(states_view(self.master_states@).len() == self.master_states@.len());
        process_audio_chain(
            c,
            &mut bus.left,
            &mut bus.right,
            &self.project.master_effects,
            &mut self.master_states,
        );
        assert(states_view(self.master_states@).len() == self.master_states@.len());
        bus.soft_clip(c);
        if self.transport {
            self.sample_pos = self.sample_pos.wrapping_add(n as u64);
        }
        self.live_pos = self.live_pos.wrapping_add(n as u64);
        let after: F64 = self.live_now_secs(c);
        self.drop_over(c, after);
        bus
    }

    /// Render up to `remaining` samples, from the loop's start where the playhead has
    /// reached its end, up to its end.
    fn play_until_wrap<K: Fn(Op, Width, u64, u64) -> u64>(&mut self, c: &Calc<K>, remaining: usize) -> (r: StereoBuffer)
        requires
            c.sound(),
            old(self).wf(c),
            loop_plays(c, old(self).project, old(self).loop_region),
            remaining > 0,
        ensures
            final(self).wf(c),
            final(self).project == old(self).project,
            final(self).plan == old(self).plan,
            final(self).loop_region == old(self).loop_region,
            final(self).transport == old(self).transport,
            r.wf(),
            ({
                let at = wrapped(c, old(self).project, old(self).engine());
                let m = until_wrap(c, old(self).project, at, remaining as nat);
                &&& 0 < m <= remaining
                &&& r.left@.len() == m
                &&& (final(self).engine(), stereo(r)) == segment(
                    c,
                    old(self).project,
                    plan_view(old(self).plan@),
                    at,
                    m,
                )
            }),
    {
        let mut n: usize = remaining;
        if self.transport {
            if let Some((from, to)) = self.loop_region {
                if from.lt(to) {
                    let end: u64 = beat_sample(c, self.project.bpm, self.project.sample_rate, to);
                    if self.sample_pos >= end {
                        self.seek_beats(c, from);
                    }
                    let ahead: u64 = end - self.sample_pos;
                    if ahead < remaining as u64 {
                        n = ahead as usize;
                    }
                }
            }
        }
        self.play_segment(c, n)
    }

    /// Fill one stereo block, advancing (and looping) the playhead.
    pub fn next_block<K: Fn(Op, Width, u64, u64) -> u64>(&mut self, c: &Calc<K>, left: &mut Vec<F32>, right: &mut Vec<F32>)
        requires
            c.sound(),
            old(self).wf(c),
            old(left)@.len() == old(right)@.len(),
            loop_plays(c, old(self).project, old(self).loop_region),
        ensures
            final(self).wf(c),
            final(self).project == old(self).project,
            final(self).loop_region == old(self).loop_region,
            final(self).transport == old(self).transport,
            final(left)@.len() == old(left)@.len(),
            final(right)@.len() == old(right)@.len(),
            (final(self).engine(), (Stereo { l: final(left)@, r: final(right)@ })) == block(
                c,
                old(self).project,
                planned(c, old(self).project),
                old(self).engine(),
                old(left)@.len(),
            ),
    {
        let len: usize = left.len();
        let ghost project = self.project;
        let ghost pv = plan_view(self.plan@);
        let ghost want = block(c, project, pv, self.engine(), len as nat);
        let mut l: Vec<F32> = Vec::new();
        let mut r: Vec<F32> = Vec::new();
        let mut filled: usize = 0;
        assert(want.1.l =~= l@ + want.1.l);
        assert(want.1.r =~= r@ + want.1.r);
        while filled < len
            invariant
                c.sound(),
                self.wf(c),
                self.project == project,
                self.loop_region == old(self).loop_region,
                self.transport == old(self).transport,
                pv == plan_view(self.plan@),
                loop_plays(c, project, self.loop_region),
                filled <= len,
                l@.len() == filled,
                r@.len() == filled,
                ({
                    let rest = block(c, project, pv, self.engine(), (len - filled) as nat);
                    &&& rest.0 == want.0
                    &&& want.1.l == l@ + rest.1.l
                    &&& want.1.r == r@ + rest.1.r
                }),
            decreases len - filled,
        {
            let remaining: usize = len - filled;
            let part: StereoBuffer = self.play_until_wrap(c, remaining);
            let n: usize = part.left.len();
            let ghost e2 = self.engine();
            let ghost rest = block(c, project, pv, e2, (remaining - n) as nat);
            let ghost l0 = l@;
            let ghost r0 = r@;
            let mut a: Vec<F32> = part.left;
            let mut b: Vec<F32> = part.right;
            assert(l0 + (a@ + rest.1.l) =~= (l0 + a@) + rest.1.l);
            assert(r0 + (b@ + rest.1.r) =~= (r0 + b@) + rest.1.r);
            l.append(&mut a);
            r.append(&mut b);
            filled += n;
        }
        assert(l@ + zeros(0) =~= l@);
        assert(r@ + zeros(0) =~= r@);
        *left = l;
        *right = r;
    }
}

// --------------------------------------------------------------------- laws

/// Two runs of both channels, one after the other.
pub open spec fn joined(a: Stereo, b: Stereo) -> Stereo {
    Stereo { l: a.l + b.l, r: a.r + b.r }
}

/// Whether a window at `t1` places grains `n` samples earlier than one at `t0`, to the
/// sample.
pub open spec fn starts_line_up<K: Fn(Op, Width, u64, u64) -> u64>(c: &Calc<K>, events: Seq<GrainEvent>, rate: u32, t0: F64, t1: F64, n: int) -> bool {
    forall|k: int|
        0 <= k < events.len() ==> grain_start(
            c,
            #[trigger] events[k],
            F64::of_count(c, rate as u64),
            t1,
        ) == grain_start(c, events[k], F64::of_count(c, rate as u64), t0) - n
}

/// Whether that holds of all parts of a clip.
pub open spec fn parts_line_up<K: Fn(Op, Width, u64, u64) -> u64>(c: &Calc<K>, parts: Seq<(usize, Seq<GrainEvent>)>, rate: u32, t0: F64, t1: F64, n: int) -> bool {
    forall|k: int| 0 <= k < parts.len() ==> starts_line_up(c, (#[trigger] parts[k]).1, rate, t0, t1, n)
}

/// Whether that holds of everything that is scheduled.
pub open spec fn plan_lines_up<K: Fn(Op, Width, u64, u64) -> u64>(c: &Calc<K>, plan: Seq<PlanView>, rate: u32, t0: F64, t1: F64, n: int) -> bool {
    forall|i: int| 0 <= i < plan.len() ==> parts_line_up(c, (#[trigger] plan[i]).parts, rate, t0, t1, n)
}

proof fn lemma_mixing_splits<K: Fn(Op, Width, u64, u64) -> u64>(c: &Calc<K>, s: Sound, events: Seq<GrainEvent>, a: Stereo, b: Stereo, rate: u32, t0: F64, t1: F64, n: nat)
    requires
        a.has_len(n),
        b.l.len() == b.r.len(),
        starts_line_up(c, events, rate, t0, t1, n as int),
    ensures
        part_mixed(c, Some(s), events, joined(a, b), rate, t0) == joined(
            part_mixed(c, Some(s), events, a, rate, t0),
            part_mixed(c, Some(s), events, b, rate, t1),
        ),
    decreases events.len(),
{
    if events.len() > 0 {
        let before = events.drop_last();
        assert forall|k: int| 0 <= k < before.len() implies grain_start(
            c,
            #[trigger] before[k],
            F64::of_count(c, rate as u64),
            t1,
        ) == grain_start(c, before[k], F64::of_count(c, rate as u64), t0) - n by {
            assert(events[k] == before[k]);
        }
        lemma_mixing_splits(c, s, before, a, b, rate, t0, t1, n);
        lemma_part_len(c, Some(s), before, a, rate, t0);
        lemma_part_len(c, Some(s), before, b, rate, t1);
        let ev = events.last();
        assert(events[events.len() - 1] == ev);
        let whole = part_mixed(c, Some(s), events, joined(a, b), rate, t0);
        let parts = joined(
            part_mixed(c, Some(s), events, a, rate, t0),
            part_mixed(c, Some(s), events, b, rate, t1),
        );
        assert(whole.l =~= parts.l);
        assert(whole.r =~= parts.r);
    }
}

proof fn lemma_parts_split<K: Fn(Op, Width, u64, u64) -> u64>(c: &Calc<K>, project: Project, filters: Seq<FilterSpec>, parts: Seq<(usize, Seq<GrainEvent>)>, a: Stereo, b: Stereo, rate: u32, t0: F64, t1: F64, n: nat, k: int)
    requires
        a.has_len(n),
        b.l.len() == b.r.len(),
        0 <= k <= parts.len(),
        parts_line_up(c, parts, rate, t0, t1, n as int),
    ensures
        parts_mixed(c, project, filters, parts, joined(a, b), rate, t0, k) == joined(
            parts_mixed(c, project, filters, parts, a, rate, t0, k),
            parts_mixed(c, project, filters, parts, b, rate, t1, k),
        ),
    decreases k,
{
    if k > 0 {
        lemma_parts_split(c, project, filters, parts, a, b, rate, t0, t1, n, k - 1);
        lemma_parts_len(c, project, filters, parts, a, rate, t0, k - 1);
        lemma_parts_len(c, project, filters, parts, b, rate, t1, k - 1);
        assert(starts_line_up(c, parts[k - 1].1, rate, t0, t1, n as int));
        match clip_sound(c, project, filters, parts[k - 1].0) {
            Some(s) => {
                lemma_mixing_splits(
                    c,
                    s,
                    parts[k - 1].1,
                    parts_mixed(c, project, filters, parts, a, rate, t0, k - 1),
                    parts_mixed(c, project, filters, parts, b, rate, t1, k - 1),
                    rate,
                    t0,
                    t1,
                    n,
                );
            },
            None => {},
        }
    }
}

proof fn lemma_silence_joins(a: nat, b: nat)
    ensures
        Stereo::silent(a + b) == joined(Stereo::silent(a), Stereo::silent(b)),
{
    assert(zeros(a + b) =~= zeros(a) + zeros(b));
}

proof fn lemma_sums_join<K: Fn(Op, Width, u64, u64) -> u64>(c: &Calc<K>, a: Stereo, b: Stereo, x: Stereo, y: Stereo, n: nat)
    requires
        a.has_len(n),
        x.has_len(n),
        b.l.len() == y.l.len(),
        b.r.len() == y.r.len(),
    ensures
        buses_summed(c, joined(a, b), joined(x, y)) == joined(
            buses_summed(c, a, x),
            buses_summed(c, b, y),
        ),
{
    let u = buses_summed(c, joined(a, b), joined(x, y));
    let v = joined(buses_summed(c, a, x), buses_summed(c, b, y));
    assert(u.l =~= v.l);
    assert(u.r =~= v.r);
}

/// Whether a rack's states fit the chains of a project.
pub open spec fn rack_ok(project: Project, plan: Seq<PlanView>, rack: Rack) -> bool {
    &&& rack.clips.len() == plan.len()
    &&& forall|i: int|
        0 <= i < plan.len() ==> fits_whole(
            project.tracks@[plan[i].track].clips@[plan[i].clip].effects@,
            #[trigger] rack.clips[i],
        )
    &&& rack.tracks.len() == project.tracks@.len()
    &&& forall|i: int|
        0 <= i < project.tracks@.len() ==> fits_whole(
            project.tracks@[i].effects@,
            #[trigger] rack.tracks[i],
        )
    &&& fits_whole(project.master_effects@, rack.master)
}

/// Whether a chain has a state for each effect, one that fits it.
pub open spec fn fits_whole(chain: Seq<AvEffect>, states: Seq<FxView>) -> bool {
    states.len() == chain.len() && chain_fits(chain, states)
}

proof fn lemma_chain_keeps<K: Fn(Op, Width, u64, u64) -> u64>(c: &Calc<K>, chain: Seq<AvEffect>, states: Seq<FxView>, l: Seq<F32>, r: Seq<F32>)
    requires
        fits_whole(chain, states),
    ensures
        ({
            let out = chain_block(c, chain, states, l, r, chain.len() as int);
            fits_whole(chain, out.0) && out.1.len() == l.len() && out.2.len() == r.len()
        }),
{
    law_chains_keep_length(c, chain, states, l, r);
}

proof fn lemma_clip_keeps<K: Fn(Op, Width, u64, u64) -> u64>(c: &Calc<K>, project: Project, clip: Clip, parts: Seq<(usize, Seq<GrainEvent>)>, states: Seq<FxView>, bus: Stereo, t0: F64)
    requires
        fits_whole(clip.effects@, states),
        bus.l.len() == bus.r.len(),
    ensures
        fits_whole(clip.effects@, clip_streamed(c, project, clip, parts, states, bus, t0).0),
        clip_streamed(c, project, clip, parts, states, bus, t0).1.has_len(bus.l.len()),
{
    let filters = clip.audio_filters@;
    let n = parts.len() as int;
    lemma_parts_len(c, project, filters, parts, bus, project.sample_rate, t0, n);
    let silent = Stereo::silent(bus.l.len());
    lemma_parts_len(c, project, filters, parts, silent, project.sample_rate, t0, n);
    let dry = parts_mixed(c, project, filters, parts, silent, project.sample_rate, t0, n);
    lemma_chain_keeps(c, clip.effects@, states, dry.l, dry.r);
}

proof fn lemma_clip_splits<K: Fn(Op, Width, u64, u64) -> u64>(c: &Calc<K>, project: Project, clip: Clip, parts: Seq<(usize, Seq<GrainEvent>)>, states: Seq<FxView>, a: Stereo, b: Stereo, t0: F64, t1: F64, n: nat)
    requires
        a.has_len(n),
        b.l.len() == b.r.len(),
        fits_whole(clip.effects@, states),
        parts_line_up(c, parts, project.sample_rate, t0, t1, n as int),
    ensures
        ({
            let one = clip_streamed(c, project, clip, parts, states, a, t0);
            let two = clip_streamed(c, project, clip, parts, one.0, b, t1);
            clip_streamed(c, project, clip, parts, states, joined(a, b), t0) == (
                two.0,
                joined(one.1, two.1),
            )
        }),
{
    let k = parts.len() as int;
    let filters = clip.audio_filters@;
    let rate = project.sample_rate;
    lemma_parts_split(c, project, filters, parts, a, b, rate, t0, t1, n, k);
    if clip.effects@.len() > 0 {
        let m = b.l.len();
        lemma_silence_joins(n, m);
        let sa = Stereo::silent(n);
        let sb = Stereo::silent(m);
        lemma_parts_split(c, project, filters, parts, sa, sb, rate, t0, t1, n, k);
        lemma_parts_len(c, project, filters, parts, sa, rate, t0, k);
        lemma_parts_len(c, project, filters, parts, sb, rate, t1, k);
        let x = parts_mixed(c, project, filters, parts, sa, rate, t0, k);
        let y = parts_mixed(c, project, filters, parts, sb, rate, t1, k);
        let chain = clip.effects@;
        law_chains_stream(c, chain, states, x.l, x.r, y.l, y.r);
        lemma_chain_keeps(c, chain, states, x.l, x.r);
        let one = chain_block(c, chain, states, x.l, x.r, chain.len() as int);
        lemma_chain_keeps(c, chain, one.0, y.l, y.r);
        let two = chain_block(c, chain, one.0, y.l, y.r, chain.len() as int);
        lemma_sums_join(
            c,
            a,
            b,
            Stereo { l: one.1, r: one.2 },
            Stereo { l: two.1, r: two.2 },
            n,
        );
    }
}

/// Whether the clip states of a rack fit the plan.
pub open spec fn clips_ok(project: Project, plan: Seq<PlanView>, clips: Seq<Seq<FxView>>) -> bool {
    &&& clips.len() == plan.len()
    &&& forall|i: int|
        0 <= i < plan.len() ==> fits_whole(
            project.tracks@[plan[i].track].clips@[plan[i].clip].effects@,
            #[trigger] clips[i],
        )
}

/// Whether two runs of clip states agree on the entries of a track.
pub open spec fn agree_on(plan: Seq<PlanView>, ti: int, a: Seq<Seq<FxView>>, b: Seq<Seq<FxView>>) -> bool {
    forall|i: int| 0 <= i < plan.len() && plan[i].track == ti ==> #[trigger] a[i] == b[i]
}

proof fn lemma_track_keeps<K: Fn(Op, Width, u64, u64) -> u64>(c: &Calc<K>, project: Project, plan: Seq<PlanView>, ti: int, states: Seq<Seq<FxView>>, len: nat, t0: F64, n: int)
    requires
        clips_ok(project, plan, states),
        0 <= n <= plan.len(),
    ensures
        ({
            let out = track_streamed(c, project, plan, ti, states, len, t0, n);
            &&& clips_ok(project, plan, out.0)
            &&& out.1.has_len(len)
            &&& forall|i: int|
                0 <= i < plan.len() && (i >= n || plan[i].track != ti) ==> #[trigger] out.0[i]
                    == states[i]
        }),
    decreases n,
{
    if n > 0 {
        lemma_track_keeps(c, project, plan, ti, states, len, t0, n - 1);
        let (s, bus) = track_streamed(c, project, plan, ti, states, len, t0, n - 1);
        let p = plan[n - 1];
        if p.track == ti {
            lemma_clip_keeps(
                c,
                project,
                project.tracks@[ti].clips@[p.clip],
                p.parts,
                s[n - 1],
                bus,
                t0,
            );
        }
    }
}

proof fn lemma_track_depends<K: Fn(Op, Width, u64, u64) -> u64>(c: &Calc<K>, project: Project, plan: Seq<PlanView>, ti: int, a: Seq<Seq<FxView>>, b: Seq<Seq<FxView>>, len: nat, t0: F64, n: int)
    requires
        clips_ok(project, plan, a),
        clips_ok(project, plan, b),
        agree_on(plan, ti, a, b),
        0 <= n <= plan.len(),
    ensures
        ({
            let x = track_streamed(c, project, plan, ti, a, len, t0, n);
            let y = track_streamed(c, project, plan, ti, b, len, t0, n);
            x.1 == y.1 && agree_on(plan, ti, x.0, y.0)
        }),
    decreases n,
{
    if n > 0 {
        lemma_track_depends(c, project, plan, ti, a, b, len, t0, n - 1);
        lemma_track_keeps(c, project, plan, ti, a, len, t0, n - 1);
        lemma_track_keeps(c, project, plan, ti, b, len, t0, n - 1);
        let x = track_streamed(c, project, plan, ti, a, len, t0, n - 1);
        let y = track_streamed(c, project, plan, ti, b, len, t0, n - 1);
        if plan[n - 1].track == ti {
            assert(x.0[n - 1] == y.0[n - 1]);
        }
    }
}

proof fn lemma_track_settled<K: Fn(Op, Width, u64, u64) -> u64>(c: &Calc<K>, project: Project, plan: Seq<PlanView>, ti: int, states: Seq<Seq<FxView>>, len: nat, t0: F64, n: int, m: int)
    requires
        clips_ok(project, plan, states),
        0 < n <= m <= plan.len(),
    ensures
        track_streamed(c, project, plan, ti, states, len, t0, m).0[n - 1] == track_streamed(
            c,
            project,
            plan,
            ti,
            states,
            len,
            t0,
            n,
        ).0[n - 1],
    decreases m,
{
    if n < m {
        lemma_track_settled(c, project, plan, ti, states, len, t0, n, m - 1);
        lemma_track_keeps(c, project, plan, ti, states, len, t0, m - 1);
    }
}

proof fn lemma_track_splits<K: Fn(Op, Width, u64, u64) -> u64>(c: &Calc<K>, project: Project, plan: Seq<PlanView>, ti: int, states: Seq<Seq<FxView>>, n1: nat, n2: nat, t0: F64, t1: F64, n: int)
    requires
        clips_ok(project, plan, states),
        plan_lines_up(c, plan, project.sample_rate, t0, t1, n1 as int),
        0 <= n <= plan.len(),
    ensures
        ({
            let m = plan.len() as int;
            let one = track_streamed(c, project, plan, ti, states, n1, t0, m);
            let first = track_streamed(c, project, plan, ti, states, n1, t0, n);
            let two = track_streamed(c, project, plan, ti, one.0, n2, t1, n);
            let all = track_streamed(c, project, plan, ti, states, n1 + n2, t0, n);
            &&& all.1 == joined(first.1, two.1)
            &&& forall|i: int|
                0 <= i < n && plan[i].track == ti ==> #[trigger] all.0[i] == two.0[i]
        }),
    decreases n,
{
    let m = plan.len() as int;
    let one = track_streamed(c, project, plan, ti, states, n1, t0, m);
    lemma_track_keeps(c, project, plan, ti, states, n1, t0, m);
    if n == 0 {
        lemma_silence_joins(n1, n2);
    } else {
        lemma_track_splits(c, project, plan, ti, states, n1, n2, t0, t1, n - 1);
        lemma_track_keeps(c, project, plan, ti, states, n1, t0, n - 1);
        lemma_track_keeps(c, project, plan, ti, one.0, n2, t1, n - 1);
        lemma_track_keeps(c, project, plan, ti, states, n1 + n2, t0, n - 1);
        let first = track_streamed(c, project, plan, ti, states, n1, t0, n - 1);
        let two = track_streamed(c, project, plan, ti, one.0, n2, t1, n - 1);
        let all = track_streamed(c, project, plan, ti, states, n1 + n2, t0, n - 1);
        let p = plan[n - 1];
        if p.track == ti {
            let clip = project.tracks@[ti].clips@[p.clip];
            assert(all.0[n - 1] == states[n - 1]);
            assert(first.0[n - 1] == states[n - 1]);
            lemma_track_settled(c, project, plan, ti, states, n1, t0, n, m);
            assert(one.0[n - 1] == clip_streamed(
                c,
                project,
                clip,
                p.parts,
                states[n - 1],
                first.1,
                t0,
            ).0);
            assert(two.0[n - 1] == one.0[n - 1]);
            lemma_clip_splits(
                c,
                project,
                clip,
                p.parts,
                states[n - 1],
                first.1,
                two.1,
                t0,
                t1,
                n1,
            );
        }
    }
}

proof fn lemma_tracks_keep<K: Fn(Op, Width, u64, u64) -> u64>(c: &Calc<K>, project: Project, plan: Seq<PlanView>, rack: Rack, len: nat, pos: u64, n: int)
    requires
        rack_ok(project, plan, rack),
        plan_fits(project, plan),
        0 <= n <= project.tracks@.len(),
    ensures
        ({
            let out = tracks_streamed(c, project, plan, rack, len, pos, n);
            &&& rack_ok(project, plan, out.0)
            &&& out.1.has_len(len)
            &&& out.0.master == rack.master
            &&& forall|i: int|
                0 <= i < plan.len() && plan[i].track >= n ==> #[trigger] out.0.clips[i]
                    == rack.clips[i]
            &&& forall|i: int|
                n <= i < project.tracks@.len() ==> #[trigger] out.0.tracks[i] == rack.tracks[i]
        }),
    decreases n,
{
    if n > 0 {
        lemma_tracks_keep(c, project, plan, rack, len, pos, n - 1);
        let (s, master) = tracks_streamed(c, project, plan, rack, len, pos, n - 1);
        let ti = n - 1;
        let t0 = stream_time(c, project.sample_rate, pos);
        if !project.tracks@[ti].muted {
            lemma_track_keeps(c, project, plan, ti, s.clips, len, t0, plan.len() as int);
            let (clips, bus) = track_streamed(
                c,
                project,
                plan,
                ti,
                s.clips,
                len,
                t0,
                plan.len() as int,
            );
            lemma_chain_keeps(c, project.tracks@[ti].effects@, s.tracks[ti], bus.l, bus.r);
        }
    }
}

proof fn lemma_tracks_settled<K: Fn(Op, Width, u64, u64) -> u64>(c: &Calc<K>, project: Project, plan: Seq<PlanView>, rack: Rack, len: nat, pos: u64, n: int, m: int)
    requires
        rack_ok(project, plan, rack),
        plan_fits(project, plan),
        0 < n <= m <= project.tracks@.len(),
    ensures
        ({
            let x = tracks_streamed(c, project, plan, rack, len, pos, m).0;
            let y = tracks_streamed(c, project, plan, rack, len, pos, n).0;
            &&& x.tracks[n - 1] == y.tracks[n - 1]
            &&& agree_on(plan, n - 1, x.clips, y.clips)
        }),
    decreases m,
{
    if n < m {
        lemma_tracks_settled(c, project, plan, rack, len, pos, n, m - 1);
        lemma_tracks_keep(c, project, plan, rack, len, pos, m - 1);
        let (s, master) = tracks_streamed(c, project, plan, rack, len, pos, m - 1);
        let t0 = stream_time(c, project.sample_rate, pos);
        if !project.tracks@[m - 1].muted {
            lemma_track_keeps(c, project, plan, m - 1, s.clips, len, t0, plan.len() as int);
        }
    }
}

proof fn lemma_level_joins<K: Fn(Op, Width, u64, u64) -> u64>(c: &Calc<K>, a: Seq<F32>, b: Seq<F32>, x: Seq<F32>, y: Seq<F32>, track: Track, bpm: F64, rate: u32, pos: u64, n: nat)
    requires
        a.len() == n,
        x.len() == n,
        b.len() == y.len(),
        n + b.len() <= u64::MAX,
    ensures
        level_streamed(c, a + b, x + y, track, bpm, rate, pos) == level_streamed(
            c,
            a,
            x,
            track,
            bpm,
            rate,
            pos,
        ) + level_streamed(c, b, y, track, bpm, rate, pos.wrapping_add(n as u64)),
{
    let u = level_streamed(c, a + b, x + y, track, bpm, rate, pos);
    let v = level_streamed(c, a, x, track, bpm, rate, pos) + level_streamed(
        c,
        b,
        y,
        track,
        bpm,
        rate,
        pos.wrapping_add(n as u64),
    );
    assert forall|i: int| 0 <= i < u.len() implies u[i] == v[i] by {
        if i >= n {
            assert(pos.wrapping_add(i as u64) == pos.wrapping_add(n as u64).wrapping_add(
                (i - n) as u64,
            ));
        }
    }
    assert(u =~= v);
}

proof fn lemma_track_step<K: Fn(Op, Width, u64, u64) -> u64>(c: &Calc<K>, project: Project, plan: Seq<PlanView>, ti: int, first: Seq<Seq<FxView>>, all: Seq<Seq<FxView>>, two: Seq<Seq<FxView>>, start: Seq<Seq<FxView>>, n1: nat, n2: nat, t0: F64, t1: F64)
    requires
        clips_ok(project, plan, first),
        clips_ok(project, plan, all),
        clips_ok(project, plan, two),
        clips_ok(project, plan, start),
        plan_lines_up(c, plan, project.sample_rate, t0, t1, n1 as int),
        agree_on(plan, ti, first, start),
        agree_on(plan, ti, all, start),
        agree_on(
            plan,
            ti,
            two,
            track_streamed(c, project, plan, ti, first, n1, t0, plan.len() as int).0,
        ),
    ensures
        ({
            let k = plan.len() as int;
            let both = track_streamed(c, project, plan, ti, all, n1 + n2, t0, k);
            let then = track_streamed(c, project, plan, ti, two, n2, t1, k);
            let mine = track_streamed(c, project, plan, ti, first, n1, t0, k);
            &&& both.1 == joined(mine.1, then.1)
            &&& mine.1.has_len(n1)
            &&& then.1.has_len(n2)
            &&& agree_on(plan, ti, both.0, then.0)
            &&& forall|i: int|
                0 <= i < plan.len() && plan[i].track != ti ==> #[trigger] both.0[i] == all[i]
            &&& forall|i: int|
                0 <= i < plan.len() && plan[i].track != ti ==> #[trigger] then.0[i] == two[i]
        }),
{
    let k = plan.len() as int;
    lemma_track_depends(c, project, plan, ti, first, start, n1, t0, k);
    lemma_track_depends(c, project, plan, ti, all, start, n1 + n2, t0, k);
    lemma_track_splits(c, project, plan, ti, start, n1, n2, t0, t1, k);
    lemma_track_keeps(c, project, plan, ti, start, n1, t0, k);
    lemma_track_keeps(c, project, plan, ti, first, n1, t0, k);
    lemma_track_keeps(c, project, plan, ti, all, n1 + n2, t0, k);
    let own = track_streamed(c, project, plan, ti, start, n1, t0, k);
    let mine = track_streamed(c, project, plan, ti, first, n1, t0, k);
    assert forall|i: int| 0 <= i < plan.len() && plan[i].track == ti implies #[trigger] two[i]
        == own.0[i] by {
        assert(two[i] == mine.0[i]);
        assert(mine.0[i] == own.0[i]);
    }
    lemma_track_depends(c, project, plan, ti, two, own.0, n2, t1, k);
    lemma_track_keeps(c, project, plan, ti, own.0, n2, t1, k);
    lemma_track_keeps(c, project, plan, ti, two, n2, t1, k);
    let both = track_streamed(c, project, plan, ti, all, n1 + n2, t0, k);
    let then = track_streamed(c, project, plan, ti, two, n2, t1, k);
    assert forall|i: int| 0 <= i < plan.len() && plan[i].track == ti implies #[trigger] both.0[i]
        == then.0[i] by {
        let w = track_streamed(c, project, plan, ti, start, n1 + n2, t0, k);
        let v = track_streamed(c, project, plan, ti, own.0, n2, t1, k);
        assert(w.0[i] == both.0[i]);
        assert(v.0[i] == then.0[i]);
        assert(w.0[i] == v.0[i]);
    }
}

#[verifier::rlimit(60)]
proof fn lemma_tracks_split<K: Fn(Op, Width, u64, u64) -> u64>(c: &Calc<K>, project: Project, plan: Seq<PlanView>, rack: Rack, n1: nat, n2: nat, pos: u64, n: int)
    requires
        rack_ok(project, plan, rack),
        plan_fits(project, plan),
        n1 + n2 <= u64::MAX,
        plan_lines_up(
            c,
            plan,
            project.sample_rate,
            stream_time(c, project.sample_rate, pos),
            stream_time(c, project.sample_rate, pos.wrapping_add(n1 as u64)),
            n1 as int,
        ),
        0 <= n <= project.tracks@.len(),
    ensures
        ({
            let m = project.tracks@.len() as int;
            let next = pos.wrapping_add(n1 as u64);
            let one = tracks_streamed(c, project, plan, rack, n1, pos, m);
            let first = tracks_streamed(c, project, plan, rack, n1, pos, n);
            let two = tracks_streamed(c, project, plan, one.0, n2, next, n);
            let all = tracks_streamed(c, project, plan, rack, n1 + n2, pos, n);
            &&& all.1 == joined(first.1, two.1)
            &&& forall|i: int| 0 <= i < n ==> #[trigger] all.0.tracks[i] == two.0.tracks[i]
            &&& forall|i: int|
                0 <= i < plan.len() && plan[i].track < n ==> #[trigger] all.0.clips[i]
                    == two.0.clips[i]
        }),
    decreases n,
{
    let m = project.tracks@.len() as int;
    let next = pos.wrapping_add(n1 as u64);
    let one = tracks_streamed(c, project, plan, rack, n1, pos, m);
    lemma_tracks_keep(c, project, plan, rack, n1, pos, m);
    if n == 0 {
        lemma_silence_joins(n1, n2);
    } else {
        let ti = n - 1;
        lemma_tracks_split(c, project, plan, rack, n1, n2, pos, ti);
        lemma_tracks_keep(c, project, plan, rack, n1, pos, ti);
        lemma_tracks_keep(c, project, plan, one.0, n2, next, ti);
        lemma_tracks_keep(c, project, plan, rack, n1 + n2, pos, ti);
        let first = tracks_streamed(c, project, plan, rack, n1, pos, ti);
        let two = tracks_streamed(c, project, plan, one.0, n2, next, ti);
        let all = tracks_streamed(c, project, plan, rack, n1 + n2, pos, ti);
        let track = project.tracks@[ti];
        lemma_tracks_settled(c, project, plan, rack, n1, pos, n, m);
        if track.muted {
            assert forall|i: int| 0 <= i < plan.len() && plan[i].track == ti implies
                #[trigger] all.0.clips[i] == two.0.clips[i] by {
                assert(one.0.clips[i] == first.0.clips[i]);
            }
        } else {
            let k = plan.len() as int;
            let t0 = stream_time(c, project.sample_rate, pos);
            let t1 = stream_time(c, project.sample_rate, next);
            lemma_track_step(
                c,
                project,
                plan,
                ti,
                first.0.clips,
                all.0.clips,
                two.0.clips,
                rack.clips,
                n1,
                n2,
                t0,
                t1,
            );
            let both = track_streamed(c, project, plan, ti, all.0.clips, n1 + n2, t0, k);
            let then = track_streamed(c, project, plan, ti, two.0.clips, n2, t1, k);
            let mine = track_streamed(c, project, plan, ti, first.0.clips, n1, t0, k);
            let bus1 = mine.1;
            let bus2 = then.1;
            if plays(plan, ti) {
                let chain = track.effects@;
                let s0 = rack.tracks[ti];
                assert(first.0.tracks[ti] == s0 && all.0.tracks[ti] == s0);
                law_chains_stream(c, chain, s0, bus1.l, bus1.r, bus2.l, bus2.r);
                lemma_chain_keeps(c, chain, s0, bus1.l, bus1.r);
                let x = chain_block(c, chain, s0, bus1.l, bus1.r, chain.len() as int);
                assert(one.0.tracks[ti] == x.0);
                assert(two.0.tracks[ti] == x.0);
                lemma_chain_keeps(c, chain, x.0, bus2.l, bus2.r);
                let y = chain_block(c, chain, x.0, bus2.l, bus2.r, chain.len() as int);
                lemma_level_joins(
                    c,
                    first.1.l,
                    two.1.l,
                    x.1,
                    y.1,
                    track,
                    project.bpm,
                    project.sample_rate,
                    pos,
                    n1,
                );
                lemma_level_joins(
                    c,
                    first.1.r,
                    two.1.r,
                    x.2,
                    y.2,
                    track,
                    project.bpm,
                    project.sample_rate,
                    pos,
                    n1,
                );
            }
        }
    }
}

/// The stream does not depend on where it is cut: two stretches one after the other
/// give what the one stretch made of both gives, effects and all, wherever the
/// windows place the grains on the same samples and no pad sounds.
#[verifier::rlimit(50)]
pub proof fn law_segments_compose<K: Fn(Op, Width, u64, u64) -> u64>(c: &Calc<K>, project: Project, plan: Seq<PlanView>, e: Engine, n1: nat, n2: nat)
    requires
        rack_ok(project, plan, e.rack),
        plan_fits(project, plan),
        e.transport,
        e.live.len() == 0,
        n1 + n2 <= u64::MAX,
        plan_lines_up(
            c,
            plan,
            project.sample_rate,
            stream_time(c, project.sample_rate, e.pos),
            stream_time(c, project.sample_rate, e.pos.wrapping_add(n1 as u64)),
            n1 as int,
        ),
    ensures
        ({
            let one = segment(c, project, plan, e, n1);
            let two = segment(c, project, plan, one.0, n2);
            segment(c, project, plan, e, n1 + n2) == (two.0, joined(one.1, two.1))
        }),
{
    reveal(segment);
    let m = project.tracks@.len() as int;
    let next = e.pos.wrapping_add(n1 as u64);
    let a = tracks_streamed(c, project, plan, e.rack, n1, e.pos, m);
    lemma_tracks_split(c, project, plan, e.rack, n1, n2, e.pos, m);
    lemma_tracks_keep(c, project, plan, e.rack, n1, e.pos, m);
    lemma_tracks_keep(c, project, plan, e.rack, n1 + n2, e.pos, m);
    let all = tracks_streamed(c, project, plan, e.rack, n1 + n2, e.pos, m);
    let chain = project.master_effects@;
    let one = segment(c, project, plan, e, n1);
    // The master's states play no part in the tracks.
    lemma_master_apart(c, project, plan, a.0, one.0.rack.master, n2, next, m);
    lemma_tracks_keep(c, project, plan, a.0, n2, next, m);
    let b = tracks_streamed(c, project, plan, a.0, n2, next, m);
    lemma_chain_keeps(c, chain, e.rack.master, a.1.l, a.1.r);
    law_chains_stream(c, chain, e.rack.master, a.1.l, a.1.r, b.1.l, b.1.r);
    let x = chain_block(c, chain, e.rack.master, a.1.l, a.1.r, chain.len() as int);
    lemma_chain_keeps(c, chain, x.0, b.1.l, b.1.r);
    let y = chain_block(c, chain, x.0, b.1.l, b.1.r, chain.len() as int);
    let two = segment(c, project, plan, one.0, n2);
    let whole = segment(c, project, plan, e, n1 + n2);
    assert(all.0.clips =~= b.0.clips);
    assert(all.0.tracks =~= b.0.tracks);
    assert(whole.1.l =~= one.1.l + two.1.l);
    assert(whole.1.r =~= one.1.r + two.1.r);
    assert(e.pos.wrapping_add((n1 + n2) as u64) == next.wrapping_add(n2 as u64));
    assert(e.live_pos.wrapping_add((n1 + n2) as u64) == e.live_pos.wrapping_add(
        n1 as u64,
    ).wrapping_add(n2 as u64));
    assert(whole.0.live =~= two.0.live);
}

proof fn lemma_master_apart<K: Fn(Op, Width, u64, u64) -> u64>(c: &Calc<K>, project: Project, plan: Seq<PlanView>, rack: Rack, master: Seq<FxView>, len: nat, pos: u64, n: int)
    ensures
        tracks_streamed(c, project, plan, (Rack { master, ..rack }), len, pos, n) == ({
            let out = tracks_streamed(c, project, plan, rack, len, pos, n);
            (Rack { master, ..out.0 }, out.1)
        }),
        tracks_streamed(c, project, plan, rack, len, pos, n).0.master == rack.master,
    decreases n,
{
    if n > 0 {
        lemma_master_apart(c, project, plan, rack, master, len, pos, n - 1);
    }
}

// ---------------------------------------------------------------- as offline

/// Whether a project has no compressor, whose latency only the offline renderer makes
/// up for.
pub open spec fn without_latency<K: Fn(Op, Width, u64, u64) -> u64>(c: &Calc<K>, project: Project) -> bool {
    &&& compressors(c, project.master_effects@) == 0
    &&& forall|i: int|
        0 <= i < project.tracks@.len() ==> compressors(
            c,
            (#[trigger] project.tracks@[i]).effects@,
        ) == 0 && forall|k: int|
            0 <= k < project.tracks@[i].clips@.len() ==> compressors(
                c,
                (#[trigger] project.tracks@[i].clips@[k]).effects@,
            ) == 0
}

/// Whether the stream from sample number `pos` counts beats as a window at `t0` does,
/// or has no level that moves.
pub open spec fn levels_line_up<K: Fn(Op, Width, u64, u64) -> u64>(c: &Calc<K>, project: Project, len: nat, t0: F64, pos: u64) -> bool {
    forall|ti: int, i: int|
        0 <= ti < project.tracks@.len() && 0 <= i < len ==> #[trigger] project.tracks@[ti].level_on(
            c,
            sample_beat(c, project.bpm, project.sample_rate, t0, i as u64),
        ) == project.tracks@[ti].level_on(
            c,
            stream_beat(c, project.bpm, project.sample_rate, pos.wrapping_add(i as u64)),
        )
}

proof fn lemma_track_offline<K: Fn(Op, Width, u64, u64) -> u64>(c: &Calc<K>, project: Project, plan: Seq<PlanView>, ti: int, states: Seq<Seq<FxView>>, len: nat, t0: F64, n: int)
    requires
        clips_ok(project, plan, states),
        without_latency(c, project),
        plan_fits(project, plan),
        0 <= n <= plan.len(),
        forall|i: int|
            0 <= i < plan.len() && plan[i].track == ti ==> #[trigger] states[i] == fresh_states(
                c,
                project.tracks@[ti].clips@[plan[i].clip].effects@,
                project.sample_rate,
            ),
    ensures
        track_streamed(c, project, plan, ti, states, len, t0, n).1 == track_mixed(
            c,
            project,
            plan,
            ti,
            len,
            t0,
            n,
        ),
    decreases n,
{
    if n > 0 {
        lemma_track_offline(c, project, plan, ti, states, len, t0, n - 1);
        lemma_track_keeps(c, project, plan, ti, states, len, t0, n - 1);
        let p = plan[n - 1];
        if p.track == ti {
            let s = track_streamed(c, project, plan, ti, states, len, t0, n - 1);
            assert(s.0[n - 1] == states[n - 1]);
            let clip = project.tracks@[ti].clips@[p.clip];
            assert(compressors(c, clip.effects@) == 0);
        }
    }
}

proof fn lemma_tracks_offline<K: Fn(Op, Width, u64, u64) -> u64>(c: &Calc<K>, project: Project, rack: Rack, len: nat, t0: F64, pos: u64, n: int)
    requires
        ({
            let plan = planned(c, project);
            &&& rack_ok(project, plan, rack)
            &&& plan_fits(project, plan)
            &&& without_latency(c, project)
            &&& levels_line_up(c, project, len, t0, pos)
            &&& t0 == stream_time(c, project.sample_rate, pos)
            &&& forall|i: int|
                0 <= i < plan.len() ==> #[trigger] rack.clips[i] == fresh_states(
                    c,
                    project.tracks@[plan[i].track].clips@[plan[i].clip].effects@,
                    project.sample_rate,
                )
            &&& forall|i: int|
                0 <= i < project.tracks@.len() ==> #[trigger] rack.tracks[i] == fresh_states(
                    c,
                    project.tracks@[i].effects@,
                    project.sample_rate,
                )
        }),
        0 <= n <= project.tracks@.len(),
    ensures
        tracks_streamed(c, project, planned(c, project), rack, len, pos, n).1 == tracks_mixed(
            c,
            project,
            planned(c, project),
            len,
            t0,
            n,
        ),
    decreases n,
{
    let plan = planned(c, project);
    if n > 0 {
        let ti = n - 1;
        lemma_tracks_offline(c, project, rack, len, t0, pos, ti);
        lemma_tracks_keep(c, project, plan, rack, len, pos, ti);
        let (s, master) = tracks_streamed(c, project, plan, rack, len, pos, ti);
        let track = project.tracks@[ti];
        if !track.muted && plays(plan, ti) {
            let k = plan.len() as int;
            assert forall|i: int| 0 <= i < plan.len() && plan[i].track == ti implies
                #[trigger] s.clips[i] == fresh_states(
                c,
                project.tracks@[ti].clips@[plan[i].clip].effects@,
                project.sample_rate,
            ) by {
                assert(s.clips[i] == rack.clips[i]);
            }
            lemma_track_offline(c, project, plan, ti, s.clips, len, t0, k);
            lemma_track_keeps(c, project, plan, ti, s.clips, len, t0, k);
            assert(s.tracks[ti] == rack.tracks[ti]);
            assert(compressors(c, track.effects@) == 0);
            let bus = track_mixed(c, project, plan, ti, len, t0, k);
            let chain = track.effects@;
            lemma_chain_keeps(c, chain, s.tracks[ti], bus.l, bus.r);
            let wet = chain_block(c, chain, s.tracks[ti], bus.l, bus.r, chain.len() as int);
            assert(track_sound(c, project, plan, ti, len, t0) == Stereo { l: wet.1, r: wet.2 });
            assert(level_streamed(
                c,
                master.l,
                wet.1,
                track,
                project.bpm,
                project.sample_rate,
                pos,
            ) =~= leveled(c, master.l, wet.1, track, project.bpm, project.sample_rate, t0));
            assert(level_streamed(
                c,
                master.r,
                wet.2,
                track,
                project.bpm,
                project.sample_rate,
                pos,
            ) =~= leveled(c, master.r, wet.2, track, project.bpm, project.sample_rate, t0));
        }
    }
}

/// The stream is the offline render: a fresh engine plays, sample for sample, what the
/// offline renderer gives for the window that starts where it does. Compressors,
/// whose latency only the offline renderer makes up for, are left out, and so are
/// windows whose clock rounds otherwise than the stream's.
pub proof fn law_stream_is_the_offline_render<K: Fn(Op, Width, u64, u64) -> u64>(c: &Calc<K>, project: Project, start_beat: F64, len: nat, t0: F64)
    requires
        without_latency(c, project),
        t0 == stream_time(
            c,
            project.sample_rate,
            beat_sample(c, project.bpm, project.sample_rate, start_beat),
        ),
        levels_line_up(
            c,
            project,
            len,
            t0,
            beat_sample(c, project.bpm, project.sample_rate, start_beat),
        ),
    ensures
        segment(
            c,
            project,
            planned(c, project),
            fresh_engine(c, project, start_beat, None),
            len,
        ).1 == project_sound(c, project, planned(c, project), len, t0),
{
    law_plans_hold_the_clips(c, project, project.tracks@.len() as int);
    reveal(segment);
    let plan = planned(c, project);
    let e = fresh_engine(c, project, start_beat, None);
    lemma_fresh_rack(c, project, start_beat);
    let m = project.tracks@.len() as int;
    lemma_tracks_offline(c, project, e.rack, len, t0, e.pos, m);
    lemma_tracks_keep(c, project, plan, e.rack, len, e.pos, m);
}

proof fn lemma_fresh_rack<K: Fn(Op, Width, u64, u64) -> u64>(c: &Calc<K>, project: Project, start_beat: F64)
    requires
        plan_fits(project, planned(c, project)),
    ensures
        rack_ok(project, planned(c, project), fresh_engine(c, project, start_beat, None).rack),
{
    let plan = planned(c, project);
    let e = fresh_engine(c, project, start_beat, None);
    assert forall|i: int| 0 <= i < plan.len() implies fits_whole(
        project.tracks@[plan[i].track].clips@[plan[i].clip].effects@,
        #[trigger] e.rack.clips[i],
    ) by {
        lemma_fresh_fits(
            c,
            project.tracks@[plan[i].track].clips@[plan[i].clip].effects@,
            project.sample_rate,
        );
    }
    assert forall|i: int| 0 <= i < project.tracks@.len() implies fits_whole(
        project.tracks@[i].effects@,
        #[trigger] e.rack.tracks[i],
    ) by {
        lemma_fresh_fits(c, project.tracks@[i].effects@, project.sample_rate);
    }
    lemma_fresh_fits(c, project.master_effects@, project.sample_rate);
}

proof fn lemma_fresh_fits<K: Fn(Op, Width, u64, u64) -> u64>(c: &Calc<K>, chain: Seq<AvEffect>, rate: u32)
    ensures
        fits_whole(chain, fresh_states(c, chain, rate)),
{
    assert forall|i: int| 0 <= i < chain.len() implies crate::fx_audio::fits(
        chain[i].kind,
        #[trigger] fresh_states(c, chain, rate)[i],
    ) by {
        assert(fresh_states(c, chain, rate)[i] == crate::fx_audio::fresh_state(
            c,
            chain[i].kind,
            rate,
        ));
    }
}

/// Without a loop, a block is one stretch.
pub proof fn law_blocks_without_loops<K: Fn(Op, Width, u64, u64) -> u64>(c: &Calc<K>, project: Project, plan: Seq<PlanView>, e: Engine, n: nat)
    requires
        n > 0,
        e.loop_region is None,
        rack_ok(project, plan, e.rack),
        plan_fits(project, plan),
    ensures
        block(c, project, plan, e, n).0 == segment(c, project, plan, e, n).0,
        block(c, project, plan, e, n).1 == segment(c, project, plan, e, n).1,
{
    let (next, a) = segment(c, project, plan, e, n);
    assert(block(c, project, plan, next, 0) == (next, Stereo::silent(0)));
    assert(a.l + zeros(0) =~= a.l);
    assert(a.r + zeros(0) =~= a.r);
}

/// What an engine plays in consecutive blocks of those sizes.
pub open spec fn blocks<K: Fn(Op, Width, u64, u64) -> u64>(c: &Calc<K>, project: Project, plan: Seq<PlanView>, e: Engine, sizes: Seq<nat>) -> (Engine, Stereo)
    decreases sizes.len(),
{
    if sizes.len() == 0 {
        (e, Stereo::silent(0))
    } else {
        let (before, a) = blocks(c, project, plan, e, sizes.drop_last());
        let (after, b) = block(c, project, plan, before, sizes.last());
        (after, joined(a, b))
    }
}

/// The number of samples in all blocks.
pub open spec fn total(sizes: Seq<nat>) -> nat
    decreases sizes.len(),
{
    if sizes.len() == 0 {
        0
    } else {
        total(sizes.drop_last()) + sizes.last()
    }
}

/// Whether every block's clock places the grains on the samples that the first one's does.
pub open spec fn blocks_line_up<K: Fn(Op, Width, u64, u64) -> u64>(c: &Calc<K>, project: Project, plan: Seq<PlanView>, pos: u64, sizes: Seq<nat>) -> bool {
    forall|k: int|
        0 <= k < sizes.len() ==> plan_lines_up(
            c,
            plan,
            project.sample_rate,
            stream_time(c, project.sample_rate, pos),
            stream_time(
                c,
                project.sample_rate,
                pos.wrapping_add(total(#[trigger] sizes.take(k)) as u64),
            ),
            total(sizes.take(k)) as int,
        )
}

/// Blocks of any sizes, one after the other, play what one stretch of all their samples
/// plays, and move the playhead on by just as many.
pub proof fn law_blocks_join<K: Fn(Op, Width, u64, u64) -> u64>(c: &Calc<K>, project: Project, plan: Seq<PlanView>, e: Engine, sizes: Seq<nat>)
    requires
        rack_ok(project, plan, e.rack),
        plan_fits(project, plan),
        e.transport,
        e.live.len() == 0,
        e.loop_region is None,
        total(sizes) <= u64::MAX,
        blocks_line_up(c, project, plan, e.pos, sizes),
    ensures
        blocks(c, project, plan, e, sizes) == if total(sizes) == 0 {
            (e, Stereo::silent(0))
        } else {
            segment(c, project, plan, e, total(sizes))
        },
        blocks(c, project, plan, e, sizes).0.pos == e.pos.wrapping_add(total(sizes) as u64),
    decreases sizes.len(),
{
    reveal(segment);
    if sizes.len() > 0 {
        let front = sizes.drop_last();
        let n1 = total(front);
        let n2 = sizes.last();
        assert(sizes.take(sizes.len() - 1) =~= front);
        assert forall|k: int| 0 <= k < front.len() implies plan_lines_up(
            c,
            plan,
            project.sample_rate,
            stream_time(c, project.sample_rate, e.pos),
            stream_time(
                c,
                project.sample_rate,
                e.pos.wrapping_add(total(#[trigger] front.take(k)) as u64),
            ),
            total(front.take(k)) as int,
        ) by {
            assert(front.take(k) =~= sizes.take(k));
        }
        law_blocks_join(c, project, plan, e, front);
        let (before, a) = blocks(c, project, plan, e, front);
        if n2 > 0 {
            if n1 > 0 {
                law_segments_compose(c, project, plan, e, n1, n2);
                lemma_segment_fits(c, project, plan, e, n1);
            } else {
                assert(before == e);
            }
            law_blocks_without_loops(c, project, plan, before, n2);
            let b = segment(c, project, plan, before, n2);
            if n1 == 0 {
                assert(joined(a, b.1).l =~= b.1.l);
                assert(joined(a, b.1).r =~= b.1.r);
            }
        } else {
            assert(joined(a, Stereo::silent(0)).l =~= a.l);
            assert(joined(a, Stereo::silent(0)).r =~= a.r);
        }
    }
}

proof fn lemma_segment_fits<K: Fn(Op, Width, u64, u64) -> u64>(c: &Calc<K>, project: Project, plan: Seq<PlanView>, e: Engine, n: nat)
    requires
        rack_ok(project, plan, e.rack),
        plan_fits(project, plan),
        e.transport,
        e.live.len() == 0,
    ensures
        rack_ok(project, plan, segment(c, project, plan, e, n).0.rack),
        segment(c, project, plan, e, n).0.live.len() == 0,
        segment(c, project, plan, e, n).1.has_len(n),
{
    reveal(segment);
    let m = project.tracks@.len() as int;
    lemma_tracks_keep(c, project, plan, e.rack, n, e.pos, m);
    let a = tracks_streamed(c, project, plan, e.rack, n, e.pos, m);
    lemma_chain_keeps(c, project.master_effects@, e.rack.master, a.1.l, a.1.r);
    lemma_master_apart(c, project, plan, e.rack, e.rack.master, n, e.pos, m);
}

/// The streamed blocks are the offline render: a fresh engine that is pulled in blocks of
/// any sizes plays, sample for sample, what the offline renderer gives for as many
/// samples, and its playhead has moved on by just as many. Compressors are left out, and
/// so are clocks that round otherwise than the offline renderer's.
pub proof fn law_blocks_are_the_offline_render<K: Fn(Op, Width, u64, u64) -> u64>(c: &Calc<K>, project: Project, start_beat: F64, sizes: Seq<nat>, t0: F64)
    requires
        without_latency(c, project),
        total(sizes) <= u64::MAX,
        ({
            let pos = beat_sample(c, project.bpm, project.sample_rate, start_beat);
            &&& t0 == stream_time(c, project.sample_rate, pos)
            &&& levels_line_up(c, project, total(sizes), t0, pos)
            &&& blocks_line_up(c, project, planned(c, project), pos, sizes)
        }),
    ensures
        ({
            let plan = planned(c, project);
            let e = fresh_engine(c, project, start_beat, None);
            let (after, played) = blocks(c, project, plan, e, sizes);
            &&& played == project_sound(c, project, plan, total(sizes), t0)
            &&& after.pos == e.pos.wrapping_add(total(sizes) as u64)
        }),
{
    law_plans_hold_the_clips(c, project, project.tracks@.len() as int);
    let plan = planned(c, project);
    let e = fresh_engine(c, project, start_beat, None);
    lemma_fresh_rack(c, project, start_beat);
    law_stream_is_the_offline_render(c, project, start_beat, total(sizes), t0);
    law_blocks_join(c, project, plan, e, sizes);
    lemma_segment_fits(c, project, plan, e, total(sizes));
    let s = segment(c, project, plan, e, total(sizes)).1;
    if total(sizes) == 0 {
        assert(s.l =~= Stereo::silent(0).l);
        assert(s.r =~= Stereo::silent(0).r);
    }
}

/// Where no track's level is automated, no clock can disagree on it.
pub proof fn law_faders_line_up<K: Fn(Op, Width, u64, u64) -> u64>(c: &Calc<K>, project: Project, len: nat, t0: F64, pos: u64)
    requires
        forall|ti: int|
            0 <= ti < project.tracks@.len() ==> (#[trigger] project.tracks@[ti]).level_points@.len() == 0,
    ensures
        levels_line_up(c, project, len, t0, pos),
{
}

/// A looping playhead never passes the loop's end.
pub proof fn law_loops_keep_the_playhead<K: Fn(Op, Width, u64, u64) -> u64>(c: &Calc<K>, project: Project, plan: Seq<PlanView>, e: Engine, n: nat)
    requires
        n <= u64::MAX,
        loop_plays(c, project, e.loop_region),
        loop_bounds(c, project, e) is Some,
        e.pos <= (loop_bounds(c, project, e)->0).1,
    ensures
        block(c, project, plan, e, n).0.pos <= (loop_bounds(c, project, e)->0).1,
    decreases n,
{
    reveal(segment);
    if n > 0 {
        let at = wrapped(c, project, e);
        let m = until_wrap(c, project, at, n);
        if m > 0 && m <= n {
            let next = segment(c, project, plan, at, m).0;
            assert(loop_bounds(c, project, next) == loop_bounds(c, project, e));
            law_loops_keep_the_playhead(c, project, plan, next, (n - m) as nat);
        }
    }
}

} // verus!
