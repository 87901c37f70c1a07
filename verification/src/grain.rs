//! The heart of the engine: a single grain scheduler whose events drive both
//! the audio renderer and the visual compositor. One `GrainEvent` is one audio
//! grain and one visual grain — same onset, duration, envelope, playback rate,
//! pan and gain — so what you hear is literally what you see.
use crate::auto::{settings_at, settings_with, AutomationLane};
use crate::calc::{kept, Calc, Op, Width};
use crate::dsp::{drawn_centred, drawn_unit, seeded, stirred, stirred_by, Rng};
use crate::music::{ratio_to_semitones, semitones_to_ratio, Key};
use crate::num::{double, single, F32, F64};
use crate::text;
use vstd::prelude::*;

verus! {

/// User-facing granular parameters on a clip.
#[derive(Clone, Copy, Debug, PartialEq)]
pub struct GrainSettings {
    /// Grains per second.
    pub density: F32,
    /// Grain length in seconds.
    pub duration: F32,
    /// Random variation of grain length (fraction of duration, 0..1).
    pub duration_jitter: F32,
    /// Normalized read position in the source (0..1).
    pub position: F32,
    /// Random spread of the read position, in seconds.
    pub spray: F32,
    /// How fast the read head scans through the source relative to timeline time
    /// (1.0 = realtime, 0.0 = frozen).
    pub scan_speed: F32,
    /// Pitch offset in semitones (also visual playback rate / hue shift).
    pub pitch: F32,
    /// Random pitch variation in semitones.
    pub pitch_jitter: F32,
    /// Linear gain applied per grain.
    pub gain: F32,
    /// Center pan -1..1 (audio position == visual x position).
    pub pan: F32,
    /// Random pan spread around the center, 0..1.
    pub pan_spread: F32,
    /// Envelope shape 0..1 (tukey taper fraction; 1 = hann).
    pub envelope: F32,
    /// Envelope skew -1..1: -1 percussive (instant attack, long tail), 0
    /// symmetric, +1 reverse swell. Shapes opacity too.
    pub env_skew: F32,
    /// Probability a grain plays in reverse.
    pub reverse_prob: F32,
    /// Beat-sync: when > 0, grain onsets snap to this beat grid (e.g. 0.25 =
    /// 16ths) and `density` becomes the average trigger rate. 0 = free.
    pub sync_div: F32,
    /// Harmony voices per grain (1..4). Voice v plays at `pitch + v *
    /// voice_interval` semitones (then key-quantized).
    pub voices: u32,
    /// Interval between harmony voices, semitones (12 = octaves, 7 = fifths).
    pub voice_interval: F32,
    /// Random detune per voice, semitones.
    pub voice_detune: F32,
    /// How far hits are pulled onto the key (1 = hard snap, 0 = free).
    pub quantize_amount: F32,
    /// Shift of a hit's pitch after the snap, cents.
    pub detune_cents: F32,
    /// Seed of the random numbers; same seed -> identical grain cloud.
    pub seed: u64,
}

/// The settings after the parameter of that name is set; `None` where there is none.
pub open spec fn grain_set<K: Fn(Op, Width, u64, u64) -> u64>(c: &Calc<K>, g: GrainSettings, key: Seq<char>, value: F64) -> Option<GrainSettings> {
    let x = value.to_f32(c);
    if key == "density"@ {
        Some(GrainSettings { density: x.clamp(single(0x3dcc_cccd), single(0x43fa_0000)), ..g })
    } else if key == "duration"@ {
        Some(GrainSettings { duration: x.clamp(single(0x3ba3_d70a), single(0x40a0_0000)), ..g })
    } else if key == "duration_jitter"@ {
        Some(GrainSettings { duration_jitter: x.clamp(single(0x0000_0000), single(0x3f80_0000)), ..g })
    } else if key == "position"@ {
        Some(GrainSettings { position: x.clamp(single(0x0000_0000), single(0x3f80_0000)), ..g })
    } else if key == "spray"@ {
        Some(GrainSettings { spray: x.max(single(0)), ..g })
    } else if key == "scan_speed"@ {
        Some(GrainSettings { scan_speed: x, ..g })
    } else if key == "pitch"@ {
        Some(GrainSettings { pitch: x.clamp(single(0xc240_0000), single(0x4240_0000)), ..g })
    } else if key == "pitch_jitter"@ {
        Some(GrainSettings { pitch_jitter: x.clamp(single(0x0000_0000), single(0x4240_0000)), ..g })
    } else if key == "gain"@ {
        Some(GrainSettings { gain: x.clamp(single(0x0000_0000), single(0x4080_0000)), ..g })
    } else if key == "pan"@ {
        Some(GrainSettings { pan: x.clamp(single(0xbf80_0000), single(0x3f80_0000)), ..g })
    } else if key == "pan_spread"@ {
        Some(GrainSettings { pan_spread: x.clamp(single(0x0000_0000), single(0x3f80_0000)), ..g })
    } else if key == "envelope"@ {
        Some(GrainSettings { envelope: x.clamp(single(0x3c23_d70a), single(0x3f80_0000)), ..g })
    } else if key == "env_skew"@ {
        Some(GrainSettings { env_skew: x.clamp(single(0xbf80_0000), single(0x3f80_0000)), ..g })
    } else if key == "reverse_prob"@ {
        Some(GrainSettings { reverse_prob: x.clamp(single(0x0000_0000), single(0x3f80_0000)), ..g })
    } else if key == "sync_div"@ {
        Some(GrainSettings { sync_div: x.clamp(single(0x0000_0000), single(0x4080_0000)), ..g })
    } else if key == "voices"@ {
        Some(GrainSettings { voices: kept(value.to_int(c) as int, 1, 4) as u32, ..g })
    } else if key == "voice_interval"@ {
        Some(GrainSettings { voice_interval: x.clamp(single(0xc1c0_0000), single(0x41c0_0000)), ..g })
    } else if key == "voice_detune"@ {
        Some(GrainSettings { voice_detune: x.clamp(single(0x0000_0000), single(0x4000_0000)), ..g })
    } else if key == "seed"@ {
        Some(GrainSettings { seed: value.to_u64(c), ..g })
    } else {
        None
    }
}

fn voice_count(n: i64) -> (r: u32)
    ensures
        r == kept(n as int, 1, 4),
{
    if n < 1 {
        1
    } else if n > 4 {
        4
    } else {
        n as u32
    }
}

impl GrainSettings {
    /// The settings of a new clip.
    pub open spec fn standard() -> GrainSettings {
        GrainSettings {
            density: single(0x41a0_0000),
            duration: single(0x3df5_c28f),
            duration_jitter: single(0x3e4c_cccd),
            position: single(0x0000_0000),
            spray: single(0x3d4c_cccd),
            scan_speed: single(0x3f80_0000),
            pitch: single(0x0000_0000),
            pitch_jitter: single(0x0000_0000),
            gain: single(0x3f4c_cccd),
            pan: single(0x0000_0000),
            pan_spread: single(0x3f19_999a),
            envelope: single(0x3f19_999a),
            env_skew: single(0x0000_0000),
            reverse_prob: single(0x0000_0000),
            sync_div: single(0x0000_0000),
            voices: 1,
            voice_interval: single(0x4140_0000),
            voice_detune: single(0x0000_0000),
            quantize_amount: single(0x3f80_0000),
            detune_cents: single(0x0000_0000),
            seed: 0xC0FFEE,
        }
    }

    /// Set a parameter by name (shared by scripting and automation). Fails for
    /// names that are not grain parameters.
    pub fn set_param<K: Fn(Op, Width, u64, u64) -> u64>(&mut self, c: &Calc<K>, key: &str, value: F64) -> (r: Result<(), ()>)
        requires
            c.sound(),
        ensures
            match grain_set(c, *old(self), key@, value) {
                Some(g) => r is Ok && *final(self) == g,
                None => r is Err && *final(self) == *old(self),
            },
    {
        let k: Vec<char> = text::chars_of(key);
        let x: F32 = value.to_f32(c);
        if text::spells(&k, "density") {
            self.density = x.clamp(single(0x3dcc_cccd), single(0x43fa_0000));
        } else if text::spells(&k, "duration") {
            self.duration = x.clamp(single(0x3ba3_d70a), single(0x40a0_0000));
        } else if text::spells(&k, "duration_jitter") {
            self.duration_jitter = x.clamp(single(0x0000_0000), single(0x3f80_0000));
        } else if text::spells(&k, "position") {
            self.position = x.clamp(single(0x0000_0000), single(0x3f80_0000));
        } else if text::spells(&k, "spray") {
            self.spray = x.max(single(0));
        } else if text::spells(&k, "scan_speed") {
            self.scan_speed = x;
        } else if text::spells(&k, "pitch") {
            self.pitch = x.clamp(single(0xc240_0000), single(0x4240_0000));
        } else if text::spells(&k, "pitch_jitter") {
            self.pitch_jitter = x.clamp(single(0x0000_0000), single(0x4240_0000));
        } else if text::spells(&k, "gain") {
            self.gain = x.clamp(single(0x0000_0000), single(0x4080_0000));
        } else if text::spells(&k, "pan") {
            self.pan = x.clamp(single(0xbf80_0000), single(0x3f80_0000));
        } else if text::spells(&k, "pan_spread") {
            self.pan_spread = x.clamp(single(0x0000_0000), single(0x3f80_0000));
        } else if text::spells(&k, "envelope") {
            self.envelope = x.clamp(single(0x3c23_d70a), single(0x3f80_0000));
        } else if text::spells(&k, "env_skew") {
            self.env_skew = x.clamp(single(0xbf80_0000), single(0x3f80_0000));
        } else if text::spells(&k, "reverse_prob") {
            self.reverse_prob = x.clamp(single(0x0000_0000), single(0x3f80_0000));
        } else if text::spells(&k, "sync_div") {
            self.sync_div = x.clamp(single(0x0000_0000), single(0x4080_0000));
        } else if text::spells(&k, "voices") {
            self.voices = voice_count(value.to_int(c));
        } else if text::spells(&k, "voice_interval") {
            self.voice_interval = x.clamp(single(0xc1c0_0000), single(0x41c0_0000));
        } else if text::spells(&k, "voice_detune") {
            self.voice_detune = x.clamp(single(0x0000_0000), single(0x4000_0000));
        } else if text::spells(&k, "seed") {
            self.seed = value.to_u64(c);
        } else {
            return Err(());
        }
        Ok(())
    }
}

impl Default for GrainSettings {
    fn default() -> (r: GrainSettings)
        ensures
            r == GrainSettings::standard(),
    {
        GrainSettings {
            density: single(0x41a0_0000),
            duration: single(0x3df5_c28f),
            duration_jitter: single(0x3e4c_cccd),
            position: single(0x0000_0000),
            spray: single(0x3d4c_cccd),
            scan_speed: single(0x3f80_0000),
            pitch: single(0x0000_0000),
            pitch_jitter: single(0x0000_0000),
            gain: single(0x3f4c_cccd),
            pan: single(0x0000_0000),
            pan_spread: single(0x3f19_999a),
            envelope: single(0x3f19_999a),
            env_skew: single(0x0000_0000),
            reverse_prob: single(0x0000_0000),
            sync_div: single(0x0000_0000),
            voices: 1,
            voice_interval: single(0x4140_0000),
            voice_detune: single(0x0000_0000),
            quantize_amount: single(0x3f80_0000),
            detune_cents: single(0x0000_0000),
            seed: 0xC0FFEE,
        }
    }
}

/// One scheduled grain, shared by the audio and video renderers.
#[derive(Clone, Copy, Debug, PartialEq)]
pub struct GrainEvent {
    /// Absolute onset on the timeline, seconds.
    pub onset: F64,
    /// Read position in the source media, seconds.
    pub source_pos: F64,
    /// Grain length in seconds (output time).
    pub duration: F32,
    /// Playback rate; audio pitch ratio == visual playback rate.
    pub pitch_ratio: F32,
    /// Linear gain (audio) == brightness/opacity weight (video).
    pub gain: F32,
    /// -1..1; audio pan == horizontal placement of the visual grain.
    pub pan: F32,
    /// Envelope shape, forwarded from settings.
    pub envelope: F32,
    /// Envelope skew, forwarded from settings.
    pub env_skew: F32,
    /// Play the grain backwards (audio and video alike).
    pub reverse: bool,
    /// Stable per-grain id for deterministic visual scatter.
    pub id: u64,
}

/// The end of a grain on the timeline, seconds.
#[verifier::allow_in_spec]
pub fn grain_end<K: Fn(Op, Width, u64, u64) -> u64>(c: &Calc<K>, ev: GrainEvent) -> F64
    requires
        c.sound(),
    returns
        (ev.onset.add(c, ev.duration.to_f64(c))),
{
    ev.onset.add(c, ev.duration.to_f64(c))
}

impl GrainEvent {
    pub fn end<K: Fn(Op, Width, u64, u64) -> u64>(&self, c: &Calc<K>) -> (r: F64)
        requires
            c.sound(),
        ensures
            r == grain_end(c, *self),
    {
        grain_end(c, *self)
    }

    /// Pitch offset of this grain in semitones (drives visual hue shift).
    pub fn semitones<K: Fn(Op, Width, u64, u64) -> u64>(&self, c: &Calc<K>) -> (r: F32)
        requires
            c.sound(),
        ensures
            r == ratio_to_semitones(c, self.pitch_ratio),
    {
        ratio_to_semitones(c, self.pitch_ratio)
    }
}

/// Where and from what a clip's grains are scheduled.
#[derive(Clone, Copy, Debug)]
pub struct Span {
    /// The clip on the timeline, seconds.
    pub start: F64,
    pub len: F64,
    pub secs_per_beat: F64,
    /// Seconds of source media available.
    pub source_len: F64,
    /// The source's fundamental, and the key that pitches are quantized to.
    pub base_hz: F32,
    pub key: Option<Key>,
}

impl Span {
    pub open spec fn wf(self) -> bool {
        self.key is Some ==> self.key->0.wf()
    }
}

/// A grain's length: `duration` varied by the draw `j`.
#[verifier::allow_in_spec]
pub fn grain_length<K: Fn(Op, Width, u64, u64) -> u64>(c: &Calc<K>, s: GrainSettings, j: F32) -> F32
    requires
        c.sound(),
    returns
        (s.duration.mul(c, single(0x3f80_0000).add(c, s.duration_jitter.mul(c, j))).clamp(single(0x3ba3_d70a), single(0x40a0_0000))),
{
    s.duration.mul(c, single(0x3f80_0000).add(c, s.duration_jitter.mul(c, j))).clamp(single(0x3ba3_d70a), single(0x40a0_0000))
}

/// A grain's read position at clip time `t`: base position, scan and spray (by the
/// draw `j`), wrapped at the source's end.
#[verifier::allow_in_spec]
pub fn grain_pos<K: Fn(Op, Width, u64, u64) -> u64>(c: &Calc<K>, s: GrainSettings, source_len: F64, t: F64, j: F32) -> F64
    requires
        c.sound(),
    returns
        (s.position.to_f64(c).mul(c, source_len).add(c, s.scan_speed.to_f64(c).mul(c, t)).add(
            c,
            s.spray.to_f64(c).mul(c, j.to_f64(c)),
        ).rem_euclid(c, source_len.max(double(0x3eb0_c6f7_a0b5_ed8d)))),
{
    s.position.to_f64(c).mul(c, source_len).add(c, s.scan_speed.to_f64(c).mul(c, t)).add(
        c,
        s.spray.to_f64(c).mul(c, j.to_f64(c)),
    ).rem_euclid(c, source_len.max(double(0x3eb0_c6f7_a0b5_ed8d)))
}

/// A grain's pan: the center spread by the draw `j`.
#[verifier::allow_in_spec]
pub fn grain_pan<K: Fn(Op, Width, u64, u64) -> u64>(c: &Calc<K>, s: GrainSettings, j: F32) -> F32
    requires
        c.sound(),
    returns
        (s.pan.add(c, s.pan_spread.clamp(single(0), single(0x3f80_0000)).mul(c, j)).clamp(single(0xbf80_0000), single(0x3f80_0000))),
{
    s.pan.add(c, s.pan_spread.clamp(single(0), single(0x3f80_0000)).mul(c, j)).clamp(single(0xbf80_0000), single(0x3f80_0000))
}

/// A voice's pitch in semitones.
#[verifier::allow_in_spec]
pub fn voice_pitch<K: Fn(Op, Width, u64, u64) -> u64>(c: &Calc<K>, s: GrainSettings, v: u32, pitch_j: F32, detune: F32) -> F32
    requires
        c.sound(),
    returns
        (s.pitch.add(c, F32::of_count(c, v as u64).mul(c, s.voice_interval)).add(c, pitch_j).add(
            c,
            detune,
        )),
{
    s.pitch.add(c, F32::of_count(c, v as u64).mul(c, s.voice_interval)).add(c, pitch_j).add(
        c,
        detune,
    )
}

/// A voice's gain, so that the cloud's loudness stays roughly level as voices stack.
#[verifier::allow_in_spec]
pub fn voice_gain<K: Fn(Op, Width, u64, u64) -> u64>(c: &Calc<K>, s: GrainSettings, n: u32) -> F32
    requires
        c.sound(),
    returns
        (s.gain.div(c, F32::of_count(c, n as u64).sqrt(c))),
{
    s.gain.div(c, F32::of_count(c, n as u64).sqrt(c))
}

/// The ratio a pitch plays at, on the key where there is one.
pub open spec fn keyed_ratio<K: Fn(Op, Width, u64, u64) -> u64>(c: &Calc<K>, span: Span, st: F32) -> F32 {
    match span.key {
        Some(k) => k.tuned(c, span.base_hz, semitones_to_ratio(c, st)),
        None => semitones_to_ratio(c, st),
    }
}

/// How many voices a grain has.
pub open spec fn voices_of(s: GrainSettings) -> int {
    kept(s.voices as int, 1, 4)
}

/// Voice `v` of the grain at clip time `t`, drawn from generator state `x`: the
/// first four draws are the grain's, then each further voice has one for its
/// detune and every voice one for its pan.
pub open spec fn voice<K: Fn(Op, Width, u64, u64) -> u64>(c: &Calc<K>, span: Span, s: GrainSettings, t: F64, x: u64, v: int, id: u64) -> GrainEvent {
    let detune = if v == 0 {
        single(0)
    } else {
        s.voice_detune.mul(c, drawn_centred(stirred_by(x, (3 + 2 * v) as nat)))
    };
    let pitch_j = s.pitch_jitter.mul(c, drawn_centred(stirred_by(x, 2)));
    GrainEvent {
        onset: span.start.add(c, t),
        source_pos: grain_pos(c, s, span.source_len, t, drawn_centred(stirred_by(x, 1))),
        duration: grain_length(c, s, drawn_centred(x)),
        pitch_ratio: keyed_ratio(c, span, voice_pitch(c, s, v as u32, pitch_j, detune)),
        gain: voice_gain(c, s, voices_of(s) as u32),
        pan: grain_pan(c, s, drawn_centred(stirred_by(x, (4 + 2 * v) as nat))),
        envelope: s.envelope,
        env_skew: s.env_skew,
        reverse: drawn_unit(stirred_by(x, 3)).lt(s.reverse_prob),
        id,
    }
}

/// One grain and its harmony voices, with ids from `id` on.
pub open spec fn grain<K: Fn(Op, Width, u64, u64) -> u64>(c: &Calc<K>, span: Span, s: GrainSettings, t: F64, x: u64, id: u64) -> Seq<GrainEvent> {
    Seq::new(voices_of(s) as nat, |v: int| voice(c, span, s, t, x, v, id.wrapping_add(v as u64)))
}

/// The generator's state after a grain.
pub open spec fn after_grain(s: GrainSettings, x: u64) -> u64 {
    stirred_by(x, (3 + 2 * voices_of(s)) as nat)
}

/// The settings in force at clip time `t`.
pub open spec fn settings_in_force<K: Fn(Op, Width, u64, u64) -> u64>(c: &Calc<K>, settings: GrainSettings, lanes: Seq<AutomationLane>, secs_per_beat: F64, t: F64) -> GrainSettings {
    if lanes.len() == 0 {
        settings
    } else {
        settings_with(c, settings, lanes, t.div(c, secs_per_beat.max(double(0x3e11_2e0b_e826_d695))))
    }
}

/// The length of a slot of the sync grid, seconds.
#[verifier::allow_in_spec]
pub fn slot_length<K: Fn(Op, Width, u64, u64) -> u64>(c: &Calc<K>, sync_div: F32, secs_per_beat: F64) -> F64
    requires
        c.sound(),
    returns
        (sync_div.to_f64(c).mul(c, secs_per_beat).max(double(0x3f50_624d_d2f1_a9fc))),
{
    sync_div.to_f64(c).mul(c, secs_per_beat).max(double(0x3f50_624d_d2f1_a9fc))
}

/// The probability that a slot triggers, so that `density` is the mean rate.
#[verifier::allow_in_spec]
pub fn slot_chance<K: Fn(Op, Width, u64, u64) -> u64>(c: &Calc<K>, density: F32, slot: F64) -> F32
    requires
        c.sound(),
    returns
        (density.to_f64(c).mul(c, slot).min(double(0x3ff0_0000_0000_0000)).to_f32(c)),
{
    density.to_f64(c).mul(c, slot).min(double(0x3ff0_0000_0000_0000)).to_f32(c)
}

/// The time from one grain to the next: the mean interval jittered by +-50%.
#[verifier::allow_in_spec]
pub fn grain_interval<K: Fn(Op, Width, u64, u64) -> u64>(c: &Calc<K>, density: F32, u: F32) -> F64
    requires
        c.sound(),
    returns
        (double(0x3ff0_0000_0000_0000).div(c, density.max(single(0x3c23_d70a)).to_f64(c)).mul(c, double(0x3fe0_0000_0000_0000).add(c, u.to_f64(c)))),
{
    double(0x3ff0_0000_0000_0000).div(c, density.max(single(0x3c23_d70a)).to_f64(c)).mul(c, double(0x3fe0_0000_0000_0000).add(c, u.to_f64(c)))
}

/// Beat-synced grains from slot `k` on: onsets live on the sync grid; every slot
/// draws once, and triggers a grain with the probability that makes `density`
/// the mean rate.
pub open spec fn synced<K: Fn(Op, Width, u64, u64) -> u64>(c: &Calc<K>, span: Span, settings: GrainSettings, lanes: Seq<AutomationLane>, k: u64, x: u64, id: u64) -> Seq<GrainEvent>
    decreases u64::MAX - k,
{
    let slot = slot_length(c, settings.sync_div, span.secs_per_beat);
    let t = F64::of_count(c, k).mul(c, slot);
    if k == u64::MAX || span.len.le(t) {
        seq![]
    } else {
        let s = settings_in_force(c, settings, lanes, span.secs_per_beat, t);
        let y = stirred(x);
        if drawn_unit(x).lt(slot_chance(c, s.density, slot)) {
            grain(c, span, s, t, y, id) + synced(
                c,
                span,
                settings,
                lanes,
                (k + 1) as u64,
                after_grain(s, y),
                id.wrapping_add(voices_of(s) as u64),
            )
        } else {
            synced(c, span, settings, lanes, (k + 1) as u64, y, id)
        }
    }
}

/// Free grains from clip time `t` on: a classic asynchronous cloud with jittered
/// inter-onset times. `k` counts the grains.
pub open spec fn free<K: Fn(Op, Width, u64, u64) -> u64>(c: &Calc<K>, span: Span, settings: GrainSettings, lanes: Seq<AutomationLane>, t: F64, k: u64, x: u64, id: u64) -> Seq<GrainEvent>
    decreases u64::MAX - k,
{
    if k == u64::MAX || !t.lt(span.len) {
        seq![]
    } else {
        let s = settings_in_force(c, settings, lanes, span.secs_per_beat, t);
        let y = stirred(x);
        grain(c, span, s, t, y, id) + free(
            c,
            span,
            settings,
            lanes,
            t.add(c, grain_interval(c, s.density, drawn_unit(x))),
            (k + 1) as u64,
            after_grain(s, y),
            id.wrapping_add(voices_of(s) as u64),
        )
    }
}

/// The grain cloud of a clip: nothing without length, source or density.
pub open spec fn cloud<K: Fn(Op, Width, u64, u64) -> u64>(c: &Calc<K>, span: Span, settings: GrainSettings, lanes: Seq<AutomationLane>) -> Seq<GrainEvent> {
    let x = seeded(settings.seed ^ 0xA5A5_5A5A);
    if span.len.le(double(0)) || span.source_len.le(double(0)) || settings.density.le(single(0)) {
        seq![]
    } else if single(0).lt(settings.sync_div) {
        synced(c, span, settings, lanes, 0, x, 0)
    } else {
        free(c, span, settings, lanes, double(0), 0, x, 0)
    }
}

fn emit_voice<K: Fn(Op, Width, u64, u64) -> u64>(c: &Calc<K>, span: &Span, s: &GrainSettings, t: F64, rng: &mut Rng, v: u32, n: u32, dur: F32, pos: F64, pitch_j: F32, reverse: bool, id: u64, Ghost(x): Ghost<u64>) -> (r: GrainEvent)
    requires
        c.sound(),
        span.wf(),
        v < n,
        n == voices_of(*s),
        old(rng)@ == stirred_by(x, (if v == 0 {
            4
        } else {
            3 + 2 * v
        }) as nat),
        dur == grain_length(c, *s, drawn_centred(x)),
        pos == grain_pos(c, *s, span.source_len, t, drawn_centred(stirred_by(x, 1))),
        pitch_j == s.pitch_jitter.mul(c, drawn_centred(stirred_by(x, 2))),
        reverse == drawn_unit(stirred_by(x, 3)).lt(s.reverse_prob),
    ensures
        r == voice(c, *span, *s, t, x, v as int, id),
        final(rng)@ == stirred_by(x, (5 + 2 * v) as nat),
{
    let detune: F32 = if v == 0 {
        single(0)
    } else {
        s.voice_detune.mul(c, rng.bipolar())
    };
    let st: F32 = voice_pitch(c, *s, v, pitch_j, detune);
    let raw: F32 = semitones_to_ratio(c, st);
    let ratio: F32 = match span.key {
        Some(k) => k.quantize_ratio(c, span.base_hz, raw),
        None => raw,
    };
    assert(rng@ == stirred_by(x, (4 + 2 * v) as nat)) by {
        if v > 0 {
            assert(stirred_by(x, (4 + 2 * v) as nat) == stirred(
                stirred_by(x, (3 + 2 * v) as nat),
            ));
        }
    }
    let pan_j: F32 = rng.bipolar();
    let pan: F32 = grain_pan(c, *s, pan_j);
    assert(stirred_by(x, (5 + 2 * v) as nat) == stirred(stirred_by(x, (4 + 2 * v) as nat)));
    GrainEvent {
        onset: span.start.add(c, t),
        source_pos: pos,
        duration: dur,
        pitch_ratio: ratio,
        gain: voice_gain(c, *s, n),
        pan,
        envelope: s.envelope,
        env_skew: s.env_skew,
        reverse,
        id,
    }
}

fn emit<K: Fn(Op, Width, u64, u64) -> u64>(c: &Calc<K>, span: &Span, s: &GrainSettings, t: F64, rng: &mut Rng, events: &mut Vec<GrainEvent>, id: &mut u64)
    requires
        c.sound(),
        span.wf(),
    ensures
        final(rng)@ == after_grain(*s, old(rng)@),
        final(events)@ == old(events)@ + grain(c, *span, *s, t, old(rng)@, *old(id)),
        *final(id) == old(id).wrapping_add(voices_of(*s) as u64),
{
    let ghost x = rng@;
    let ghost id0 = *id;
    let ghost before = events@;
    proof {
        reveal_with_fuel(stirred_by, 6);
    }
    let dur_j: F32 = rng.bipolar();
    let dur: F32 = grain_length(c, *s, dur_j);
    let spray_j: F32 = rng.bipolar();
    let pos: F64 = grain_pos(c, *s, span.source_len, t, spray_j);
    let pitch_j: F32 = s.pitch_jitter.mul(c, rng.bipolar());
    let roll: F32 = rng.next_f32();
    let reverse: bool = roll.lt(s.reverse_prob);
    let n: u32 = if s.voices < 1 {
        1
    } else if s.voices > 4 {
        4
    } else {
        s.voices
    };
    assert(rng@ == stirred_by(x, 4));
    let mut v: u32 = 0;
    while v < n
        invariant
            c.sound(),
            span.wf(),
            v <= n,
            n == voices_of(*s),
            rng@ == stirred_by(x, (if v == 0 {
                4
            } else {
                3 + 2 * v
            }) as nat),
            dur == grain_length(c, *s, drawn_centred(x)),
            pos == grain_pos(c, *s, span.source_len, t, drawn_centred(stirred_by(x, 1))),
            pitch_j == s.pitch_jitter.mul(c, drawn_centred(stirred_by(x, 2))),
            reverse == drawn_unit(stirred_by(x, 3)).lt(s.reverse_prob),
            *id == id0.wrapping_add(v as u64),
            events@ =~= before + grain(c, *span, *s, t, x, id0).take(v as int),
        decreases n - v,
    {
        let ev: GrainEvent = emit_voice(c, span, s, t, rng, v, n, dur, pos, pitch_j, reverse, *id, Ghost(x));
        assert(grain(c, *span, *s, t, x, id0).take(v + 1) =~= grain(c, *span, *s, t, x, id0).take(
            v as int,
        ).push(ev));
        events.push(ev);
        *id = (*id).wrapping_add(1);
        v += 1;
    }
    assert(grain(c, *span, *s, t, x, id0).take(v as int) =~= grain(c, *span, *s, t, x, id0));
}

/// The settings in force at clip time `t`.
pub fn force_settings<K: Fn(Op, Width, u64, u64) -> u64>(c: &Calc<K>, settings: &GrainSettings, lanes: &Vec<AutomationLane>, secs_per_beat: F64, t: F64) -> (r: GrainSettings)
    requires
        c.sound(),
    ensures
        r == settings_in_force(c, *settings, lanes@, secs_per_beat, t),
{
    if lanes.len() == 0 {
        *settings
    } else {
        settings_at(c, settings, lanes, t.div(c, secs_per_beat.max(double(0x3e11_2e0b_e826_d695))))
    }
}

/// Schedule the grain cloud for a clip.
///
/// * `clip_start`/`clip_len`: seconds on the timeline.
/// * `source_len`: seconds of source media available.
/// * `base_hz` + `key`: when a key is given, every grain's pitch ratio is
///   quantized so `base_hz * ratio` lands on the key's scale.
pub fn schedule_grains<K: Fn(Op, Width, u64, u64) -> u64>(c: &Calc<K>, settings: &GrainSettings, clip_start: F64, clip_len: F64, source_len: F64, base_hz: F32, key: Option<Key>) -> (r: Vec<GrainEvent>)
    requires
        c.sound(),
        key is Some ==> key->0.wf(),
    ensures
        r@ == cloud(
            c,
            (Span {
                start: clip_start,
                len: clip_len,
                secs_per_beat: double(0x3ff0_0000_0000_0000),
                source_len,
                base_hz,
                key,
            }),
            *settings,
            seq![],
        ),
{
    let lanes: Vec<AutomationLane> = Vec::new();
    assert(lanes@ =~= seq![]);
    schedule_grains_auto(c, settings, &lanes, double(0x3ff0_0000_0000_0000), clip_start, clip_len, source_len, base_hz, key)
}

/// Like `schedule_grains`, with automation lanes evaluated at each grain's onset
/// (lane beats are relative to the clip start; `secs_per_beat` converts grain
/// time to beats). Density automation changes the scheduling rate itself.
pub fn schedule_grains_auto<K: Fn(Op, Width, u64, u64) -> u64>(c: &Calc<K>, settings: &GrainSettings, lanes: &Vec<AutomationLane>, secs_per_beat: F64, clip_start: F64, clip_len: F64, source_len: F64, base_hz: F32, key: Option<Key>) -> (r: Vec<GrainEvent>)
    requires
        c.sound(),
        key is Some ==> key->0.wf(),
    ensures
        r@ == cloud(
            c,
            (Span { start: clip_start, len: clip_len, secs_per_beat, source_len, base_hz, key }),
            *settings,
            lanes@,
        ),
{
    let mut events: Vec<GrainEvent> = Vec::new();
    if clip_len.le(double(0)) || source_len.le(double(0)) || settings.density.le(single(0)) {
        assert(events@ =~= seq![]);
        return events;
    }
    let span: Span = Span { start: clip_start, len: clip_len, secs_per_beat, source_len, base_hz, key };
    let mut rng: Rng = Rng::new(settings.seed ^ 0xA5A5_5A5A);
    let mut id: u64 = 0;
    let mut k: u64 = 0;
    if single(0).lt(settings.sync_div) {
        let slot: F64 = slot_length(c, settings.sync_div, secs_per_beat);
        let ghost all = synced(c, span, *settings, lanes@, 0, rng@, 0);
        assert(events@ + all =~= all);
        while k < u64::MAX
            invariant_except_break
                all == events@ + synced(c, span, *settings, lanes@, k, rng@, id),
            invariant
                c.sound(),
                span.wf(),
                span.secs_per_beat == secs_per_beat,
                slot == slot_length(c, settings.sync_div, secs_per_beat),
            ensures
                events@ == all,
            decreases u64::MAX - k,
        {
            let t: F64 = F64::of_count(c, k).mul(c, slot);
            let ghost rest = synced(c, span, *settings, lanes@, k, rng@, id);
            if span.len.le(t) {
                assert(events@ + rest =~= events@);
                break;
            }
            let ghost before = events@;
            let roll: F32 = rng.next_f32();
            let s: GrainSettings = force_settings(c, settings, lanes, secs_per_beat, t);
            let p: F32 = slot_chance(c, s.density, slot);
            let ghost y = rng@;
            let ghost id0 = id;
            if roll.lt(p) {
                emit(c, &span, &s, t, &mut rng, &mut events, &mut id);
                proof {
                    let g = grain(c, span, s, t, y, id0);
                    let tail = synced(c, span, *settings, lanes@, (k + 1) as u64, rng@, id);
                    assert(before + (g + tail) =~= (before + g) + tail);
                }
            }
            k += 1;
            proof {
                if k == u64::MAX {
                    let tail = synced(c, span, *settings, lanes@, k, rng@, id);
                    assert(events@ + tail =~= events@);
                }
            }
        }
    } else {
        let mut t: F64 = double(0);
        let ghost all = free(c, span, *settings, lanes@, t, 0, rng@, 0);
        assert(events@ + all =~= all);
        while k < u64::MAX && t.lt(clip_len)
            invariant
                c.sound(),
                span.wf(),
                span.len == clip_len,
                span.secs_per_beat == secs_per_beat,
                all == events@ + free(c, span, *settings, lanes@, t, k, rng@, id),
            decreases u64::MAX - k,
        {
            let ghost before = events@;
            let s: GrainSettings = force_settings(c, settings, lanes, secs_per_beat, t);
            let u: F32 = rng.next_f32();
            let ghost y = rng@;
            let ghost id0 = id;
            let interval: F64 = grain_interval(c, s.density, u);
            let ghost t0 = t;
            emit(c, &span, &s, t, &mut rng, &mut events, &mut id);
            t = t.add(c, interval);
            k += 1;
            proof {
                let g = grain(c, span, s, t0, y, id0);
                let tail = free(c, span, *settings, lanes@, t, k, rng@, id);
                assert(before + (g + tail) =~= (before + g) + tail);
            }
        }
        proof {
            let tail = free(c, span, *settings, lanes@, t, k, rng@, id);
            assert(events@ + tail =~= events@);
        }
    }
    events
}

/// The grain that a MIDI note plays: see `grain_from_note`.
pub open spec fn note_grain<K: Fn(Op, Width, u64, u64) -> u64>(c: &Calc<K>, settings: GrainSettings, note: u8, velocity: u8, source_len: F64, onset: F64, id: u64) -> GrainEvent {
    GrainEvent {
        onset,
        source_pos: settings.position.to_f64(c).mul(c, source_len).min(source_len),
        duration: settings.duration.clamp(single(0x3c23_d70a), single(0x40a0_0000)),
        pitch_ratio: semitones_to_ratio(
            c,
            settings.pitch.add(c, F32::of_count(c, note as u64).sub(c, single(0x4270_0000))),
        ),
        gain: settings.gain.mul(c, F32::of_count(c, velocity as u64).div(c, single(0x42fe_0000))),
        pan: settings.pan.clamp(single(0xbf80_0000), single(0x3f80_0000)),
        envelope: settings.envelope,
        env_skew: settings.env_skew,
        reverse: single(0x3f00_0000).le(settings.reverse_prob),
        id,
    }
}

/// Build the grain a MIDI note plays: the sampler mapping. Note 60 (C4) plays
/// the source at the clip's base pitch; other notes transpose in semitones.
/// Velocity scales gain. No key quantization — MIDI notes are explicit pitches.
pub fn grain_from_note<K: Fn(Op, Width, u64, u64) -> u64>(c: &Calc<K>, settings: &GrainSettings, note: u8, velocity: u8, source_len: F64, onset: F64, id: u64) -> (r: GrainEvent)
    requires
        c.sound(),
    ensures
        r == note_grain(c, *settings, note, velocity, source_len, onset, id),
{
    let st: F32 = settings.pitch.add(c, F32::of_count(c, note as u64).sub(c, single(0x4270_0000)));
    GrainEvent {
        onset,
        source_pos: settings.position.to_f64(c).mul(c, source_len).min(source_len),
        duration: settings.duration.clamp(single(0x3c23_d70a), single(0x40a0_0000)),
        pitch_ratio: semitones_to_ratio(c, st),
        gain: settings.gain.mul(c, F32::of_count(c, velocity as u64).div(c, single(0x42fe_0000))),
        pan: settings.pan.clamp(single(0xbf80_0000), single(0x3f80_0000)),
        envelope: settings.envelope,
        env_skew: settings.env_skew,
        reverse: single(0x3f00_0000).le(settings.reverse_prob),
        id,
    }
}

/// Whether an event is a voice of a grain at clip time `t`, whatever the
/// settings in force and the numbers drawn.
pub open spec fn sounds_at<K: Fn(Op, Width, u64, u64) -> u64>(c: &Calc<K>, span: Span, t: F64, e: GrainEvent) -> bool {
    exists|s: GrainSettings, y: u64, v: int, id: u64| e == #[trigger] voice(c, span, s, t, y, v, id)
}

/// The clip time of a slot of the sync grid.
pub open spec fn slot_time<K: Fn(Op, Width, u64, u64) -> u64>(c: &Calc<K>, span: Span, settings: GrainSettings, k: u64) -> F64 {
    F64::of_count(c, k).mul(c, slot_length(c, settings.sync_div, span.secs_per_beat))
}

/// Beat-synced grains sound on the sync grid and within the clip: each one at
/// the time of a slot that the clip has not ended before.
pub proof fn law_synced_grains_are_on_the_grid<K: Fn(Op, Width, u64, u64) -> u64>(c: &Calc<K>, span: Span, settings: GrainSettings, lanes: Seq<AutomationLane>, k: u64, x: u64, id: u64, i: int)
    requires
        0 <= i < synced(c, span, settings, lanes, k, x, id).len(),
    ensures
        exists|n: u64|
            k <= n && !span.len.le(#[trigger] slot_time(c, span, settings, n)) && sounds_at(
                c,
                span,
                slot_time(c, span, settings, n),
                synced(c, span, settings, lanes, k, x, id)[i],
            ),
    decreases u64::MAX - k,
{
    let t = slot_time(c, span, settings, k);
    let s = settings_in_force(c, settings, lanes, span.secs_per_beat, t);
    let slot = slot_length(c, settings.sync_div, span.secs_per_beat);
    let y = stirred(x);
    if drawn_unit(x).lt(slot_chance(c, s.density, slot)) {
        let g = grain(c, span, s, t, y, id);
        let rest_id = id.wrapping_add(voices_of(s) as u64);
        if i < g.len() {
            assert(g[i] == voice(c, span, s, t, y, i, id.wrapping_add(i as u64)));
            assert(sounds_at(c, span, t, g[i]));
        } else {
            law_synced_grains_are_on_the_grid(c, span, settings, lanes, (k + 1) as u64, after_grain(s, y), rest_id, i - g.len());
        }
    } else {
        law_synced_grains_are_on_the_grid(c, span, settings, lanes, (k + 1) as u64, y, id, i);
    }
}

/// Whether an event sounds before the clip ends.
pub open spec fn within_clip<K: Fn(Op, Width, u64, u64) -> u64>(c: &Calc<K>, span: Span, e: GrainEvent) -> bool {
    exists|at: F64| at.lt(span.len) && #[trigger] sounds_at(c, span, at, e)
}

/// Free grains sound within the clip.
pub proof fn law_free_grains_are_within_the_clip<K: Fn(Op, Width, u64, u64) -> u64>(c: &Calc<K>, span: Span, settings: GrainSettings, lanes: Seq<AutomationLane>, t: F64, k: u64, x: u64, id: u64, i: int)
    requires
        0 <= i < free(c, span, settings, lanes, t, k, x, id).len(),
    ensures
        within_clip(c, span, free(c, span, settings, lanes, t, k, x, id)[i]),
    decreases u64::MAX - k,
{
    let s = settings_in_force(c, settings, lanes, span.secs_per_beat, t);
    let y = stirred(x);
    let g = grain(c, span, s, t, y, id);
    let t2 = t.add(c, grain_interval(c, s.density, drawn_unit(x)));
    let id2 = id.wrapping_add(voices_of(s) as u64);
    let rest = free(c, span, settings, lanes, t2, (k + 1) as u64, after_grain(s, y), id2);
    assert(free(c, span, settings, lanes, t, k, x, id) == g + rest);
    if i < g.len() {
        assert(g[i] == voice(c, span, s, t, y, i, id.wrapping_add(i as u64)));
        assert(sounds_at(c, span, t, g[i]));
    } else {
        law_free_grains_are_within_the_clip(c, span, settings, lanes, t2, (k + 1) as u64, after_grain(s, y), id2, i - g.len());
        assert((g + rest)[i] == rest[i - g.len()]);
    }
}

/// Ids count up from `id`, one for each event, in beat-synced clouds.
pub proof fn law_synced_ids_count_up<K: Fn(Op, Width, u64, u64) -> u64>(c: &Calc<K>, span: Span, settings: GrainSettings, lanes: Seq<AutomationLane>, k: u64, x: u64, id: u64, i: int)
    requires
        0 <= i < synced(c, span, settings, lanes, k, x, id).len(),
        i <= u64::MAX - 8,
    ensures
        synced(c, span, settings, lanes, k, x, id)[i].id == id.wrapping_add(i as u64),
    decreases u64::MAX - k,
{
    let t = slot_time(c, span, settings, k);
    let s = settings_in_force(c, settings, lanes, span.secs_per_beat, t);
    let slot = slot_length(c, settings.sync_div, span.secs_per_beat);
    let y = stirred(x);
    if drawn_unit(x).lt(slot_chance(c, s.density, slot)) {
        let g = grain(c, span, s, t, y, id);
        let rest_id = id.wrapping_add(voices_of(s) as u64);
        if i < g.len() {
            assert(g[i] == voice(c, span, s, t, y, i, id.wrapping_add(i as u64)));
        } else {
            law_synced_ids_count_up(c, span, settings, lanes, (k + 1) as u64, after_grain(s, y), rest_id, i - g.len());
        }
    } else {
        law_synced_ids_count_up(c, span, settings, lanes, (k + 1) as u64, y, id, i);
    }
}

/// Ids count up from `id`, one for each event, in free clouds.
pub proof fn law_free_ids_count_up<K: Fn(Op, Width, u64, u64) -> u64>(c: &Calc<K>, span: Span, settings: GrainSettings, lanes: Seq<AutomationLane>, t: F64, k: u64, x: u64, id: u64, i: int)
    requires
        0 <= i < free(c, span, settings, lanes, t, k, x, id).len(),
        i <= u64::MAX - 8,
    ensures
        free(c, span, settings, lanes, t, k, x, id)[i].id == id.wrapping_add(i as u64),
    decreases u64::MAX - k,
{
    let s = settings_in_force(c, settings, lanes, span.secs_per_beat, t);
    let y = stirred(x);
    let g = grain(c, span, s, t, y, id);
    if i < g.len() {
        assert(g[i] == voice(c, span, s, t, y, i, id.wrapping_add(i as u64)));
    } else {
        law_free_ids_count_up(c, span, settings, lanes, t.add(c, grain_interval(c, s.density, drawn_unit(x))), (k + 1) as u64, after_grain(s, y), id.wrapping_add(voices_of(s) as u64), i - g.len());
    }
}

/// The voices of one grain share its onset, read position, length, direction
/// and gain; only pitch, pan and id tell them apart.
pub proof fn law_voices_share_their_grain<K: Fn(Op, Width, u64, u64) -> u64>(c: &Calc<K>, span: Span, s: GrainSettings, t: F64, x: u64, id: u64, v: int, w: int)
    requires
        0 <= v < voices_of(s),
        0 <= w < voices_of(s),
    ensures
        grain(c, span, s, t, x, id).len() == voices_of(s),
        ({
            let a = grain(c, span, s, t, x, id)[v];
            let b = grain(c, span, s, t, x, id)[w];
            a.onset == b.onset && a.source_pos == b.source_pos && a.duration == b.duration
                && a.reverse == b.reverse && a.gain == b.gain && a.envelope == b.envelope
                && a.env_skew == b.env_skew
        }),
{
}

/// With a key, every grain's ratio is one that the key tunes.
pub proof fn law_grains_are_tuned_to_the_key<K: Fn(Op, Width, u64, u64) -> u64>(c: &Calc<K>, span: Span, t: F64, e: GrainEvent)
    requires
        sounds_at(c, span, t, e),
        span.key is Some,
    ensures
        exists|raw: F32| e.pitch_ratio == #[trigger] span.key->0.tuned(c, span.base_hz, raw),
{
    let (s, y, v, id) = choose|s: GrainSettings, y: u64, v: int, id: u64|
        e == #[trigger] voice(c, span, s, t, y, v, id);
    let detune = if v == 0 {
        single(0)
    } else {
        s.voice_detune.mul(c, drawn_centred(stirred_by(y, (3 + 2 * v) as nat)))
    };
    let st = voice_pitch(c, s, v as u32, s.pitch_jitter.mul(c, drawn_centred(stirred_by(y, 2))), detune);
    assert(e.pitch_ratio == span.key->0.tuned(c, span.base_hz, semitones_to_ratio(c, st)));
}

} // verus!
