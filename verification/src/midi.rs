//! MIDI input: what messages say, and what mapped controllers change.
use crate::auto::{param_range, range_of};
use crate::calc::{Calc, Op, Width};
use crate::grain::{grain_set, GrainSettings};
use crate::num::{double, F32, F64};
use crate::script::{only_clip, only_track};
use crate::text;
use crate::timeline::{Clip, Project, Track};
use vstd::prelude::*;

verus! {

#[derive(Clone, Copy, Debug, PartialEq, Eq, Structural)]
pub enum MidiMsg {
    NoteOn { note: u8, velocity: u8 },
    NoteOff { note: u8 },
    Cc { cc: u8, value: u8 },
}

/// What raw bytes say: the upper half of the first tells the kind of message, the lower
/// half the channel, which does not matter. A note that starts without velocity ends.
pub open spec fn message(bytes: Seq<u8>) -> Option<MidiMsg> {
    if bytes.len() < 2 {
        None
    } else if bytes[0] / 16 == 9 && bytes.len() >= 3 {
        if bytes[2] == 0 {
            Some(MidiMsg::NoteOff { note: bytes[1] })
        } else {
            Some(MidiMsg::NoteOn { note: bytes[1], velocity: bytes[2] })
        }
    } else if bytes[0] / 16 == 8 {
        Some(MidiMsg::NoteOff { note: bytes[1] })
    } else if bytes[0] / 16 == 11 && bytes.len() >= 3 {
        Some(MidiMsg::Cc { cc: bytes[1], value: bytes[2] })
    } else {
        None
    }
}

/// Parse a raw MIDI message.
pub fn parse(bytes: &[u8]) -> (r: Option<MidiMsg>)
    ensures
        r == message(bytes@),
{
    if bytes.len() < 2 {
        return None;
    }
    match bytes[0] / 16 {
        9 => {
            if bytes.len() < 3 {
                return None;
            }
            let velocity: u8 = bytes[2];
            if velocity == 0 {
                Some(MidiMsg::NoteOff { note: bytes[1] })
            } else {
                Some(MidiMsg::NoteOn { note: bytes[1], velocity })
            }
        },
        8 => Some(MidiMsg::NoteOff { note: bytes[1] }),
        11 => {
            if bytes.len() < 3 {
                return None;
            }
            Some(MidiMsg::Cc { cc: bytes[1], value: bytes[2] })
        },
        _ => None,
    }
}

/// What a mapped CC controls.
#[derive(Debug, PartialEq, Eq)]
pub enum CcTarget {
    /// A grain parameter on a specific clip.
    ClipParam { track: usize, clip: usize, param: String },
    /// A track's level fader (audio gain + video opacity).
    TrackLevel { track: usize },
}

impl Clone for CcTarget {
    fn clone(&self) -> (r: CcTarget)
        ensures
            match (*self, r) {
                (
                    CcTarget::ClipParam { track: t, clip: i, param: p },
                    CcTarget::ClipParam { track, clip, param },
                ) => track == t && clip == i && param@ == p@,
                (CcTarget::TrackLevel { track: t }, CcTarget::TrackLevel { track }) => track == t,
                _ => false,
            },
    {
        match self {
            CcTarget::ClipParam { track, clip, param } => CcTarget::ClipParam {
                track: *track,
                clip: *clip,
                param: param.clone(),
            },
            CcTarget::TrackLevel { track } => CcTarget::TrackLevel { track: *track },
        }
    }
}

impl CcTarget {
    pub fn label(&self) -> (r: String)
        ensures
            r@ == match *self {
                CcTarget::ClipParam { track, clip, param } => param@ + " (t"@ + text::decimal(
                    track as nat,
                ) + " c"@ + text::decimal(clip as nat) + ")"@,
                CcTarget::TrackLevel { track } => "level (t"@ + text::decimal(track as nat) + ")"@,
            },
    {
        match self {
            CcTarget::ClipParam { track, clip, param } => {
                let mut out: String = param.clone();
                out.append(" (t");
                text::push_decimal(&mut out, *track as u64);
                out.append(" c");
                text::push_decimal(&mut out, *clip as u64);
                out.append(")");
                out
            },
            CcTarget::TrackLevel { track } => {
                let mut out: String = "level (t".to_owned();
                text::push_decimal(&mut out, *track as u64);
                out.append(")");
                out
            },
        }
    }
}

/// One CC-to-parameter mapping. Without a number it is learning: the next incoming CC
/// claims it.
#[derive(Debug, PartialEq, Eq)]
pub struct CcMapping {
    pub cc: Option<u8>,
    pub target: CcTarget,
}

/// How far a controller is turned up, of 0..=127.
#[verifier::allow_in_spec]
pub fn turned<K: Fn(Op, Width, u64, u64) -> u64>(c: &Calc<K>, value: u8) -> F64
    requires
        c.sound(),
    returns
        (F64::of_count(c, value as u64).div(c, double(0x405f_c000_0000_0000))),
{
    F64::of_count(c, value as u64).div(c, double(0x405f_c000_0000_0000))
}

/// A place of a range.
#[verifier::allow_in_spec]
pub fn within<K: Fn(Op, Width, u64, u64) -> u64>(c: &Calc<K>, lo: F32, hi: F32, f: F64) -> F64
    requires
        c.sound(),
    returns
        (lo.to_f64(c).add(c, hi.sub(c, lo).to_f64(c).mul(c, f))),
{
    lo.to_f64(c).add(c, hi.sub(c, lo).to_f64(c).mul(c, f))
}

/// The level that a controller sets.
#[verifier::allow_in_spec]
pub fn turned_level<K: Fn(Op, Width, u64, u64) -> u64>(c: &Calc<K>, f: F64) -> F32
    requires
        c.sound(),
    returns
        (f.mul(c, double(0x3ff8_0000_0000_0000)).to_f32(c)),
{
    f.mul(c, double(0x3ff8_0000_0000_0000)).to_f32(c)
}

/// A clip's grains with a parameter set to a place of its range, where it has one.
pub open spec fn dialled<K: Fn(Op, Width, u64, u64) -> u64>(c: &Calc<K>, g: GrainSettings, param: Seq<char>, f: F64) -> Option<GrainSettings> {
    match range_of(param) {
        Some((lo, hi)) => grain_set(c, g, param, within(c, lo, hi, f)),
        None => None,
    }
}

/// Whether a project holds a clip at a place.
pub open spec fn clip_at(p: Project, track: usize, clip: usize) -> bool {
    track < p.tracks@.len() && clip < p.tracks@[track as int].clips@.len()
}

/// Apply a CC value (0..127) through a mapping onto the project. Whether something
/// changed.
pub fn apply_cc<K: Fn(Op, Width, u64, u64) -> u64>(c: &Calc<K>, project: &mut Project, target: &CcTarget, value: u8) -> (r: bool)
    requires
        c.sound(),
    ensures
        match *target {
            CcTarget::ClipParam { track, clip, param } => {
                let was = old(project).tracks@[track as int].clips@[clip as int];
                let g = dialled(c, was.grains, param@, turned(c, value));
                if clip_at(*old(project), track, clip) && g is Some {
                    &&& r
                    &&& only_clip(*old(project), *final(project), track as int, clip as int)
                    &&& final(project).tracks@[track as int].clips@[clip as int] == Clip {
                        grains: g->0,
                        ..was
                    }
                } else {
                    !r && *final(project) == *old(project)
                }
            },
            CcTarget::TrackLevel { track } => if track < old(project).tracks@.len() {
                &&& r
                &&& only_track(*old(project), *final(project), track as int)
                &&& final(project).tracks@[track as int] == Track {
                    level: turned_level(c, turned(c, value)),
                    ..old(project).tracks@[track as int]
                }
            } else {
                !r && *final(project) == *old(project)
            },
        },
{
    let f: F64 = turned(c, value);
    match target {
        CcTarget::ClipParam { track, clip, param } => {
            let (lo, hi): (F32, F32) = match param_range(param.as_str()) {
                Some(range) => range,
                None => {
                    return false;
                },
            };
            let v: F64 = within(c, lo, hi, f);
            if *track < project.tracks.len() && *clip < project.tracks[*track].clips.len() {
                let mut g: GrainSettings = project.tracks[*track].clips[*clip].grains;
                match g.set_param(c, param.as_str(), v) {
                    Ok(()) => {
                        project.tracks[*track].clips[*clip].grains = g;
                        true
                    },
                    Err(()) => false,
                }
            } else {
                false
            }
        },
        CcTarget::TrackLevel { track } => {
            if *track < project.tracks.len() {
                project.tracks[*track].level = turned_level(c, f);
                true
            } else {
                false
            }
        },
    }
}

/// The channel of a message does not matter, nor does anything after its third byte.
pub proof fn law_channels_are_ignored(a: Seq<u8>, b: Seq<u8>)
    requires
        a.len() > 0,
        b.len() > 0,
        a[0] / 16 == b[0] / 16,
        a.len() >= 2 <==> b.len() >= 2,
        a.len() >= 3 <==> b.len() >= 3,
        a.len() >= 2 ==> a[1] == b[1],
        a.len() >= 3 ==> a[2] == b[2],
    ensures
        message(a) == message(b),
{
}

} // verus!
