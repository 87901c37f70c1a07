//! Audiovisual effects. Every effect has an AUDIO side and a VIDEO side
//! built on the same underlying idea, so the crunch you hear is the crunch
//! you see:
//!
//! | effect   | audio                          | video                          |
//! |----------|--------------------------------|--------------------------------|
//! | Crush    | sample-rate decimation + bit   | pixelation + color posterize   |
//! |          | depth reduction                |                                |
//! | Delay    | feedback delay line            | ghost frames at the same delay |
//! |          |                                | and feedback, optional drift   |
//! | Reverb   | Freeverb-style comb/allpass    | frame persistence + blur smear |
//! | Compress | FFT spectral quantization      | JPEG-style 8x8 DCT block       |
//! |          | (transform-domain crunch)      | quantization (same idea!)      |
//!
//! Correspondence is the default but configurable per effect: `audio` and
//! `video` are independent 0..1 amount dials. audio=1, video=1 means both
//! sides fully apply; video=0 makes an effect audio-only, and vice versa.
use crate::calc::{Calc, Op, Width};
use crate::num::{single, F32};
use crate::text;
use vstd::prelude::*;

verus! {

#[derive(Clone, Copy, Debug, PartialEq)]
pub enum EffectKind {
    /// Downres / bitcrush. `downsample`: hold factor (1..64); `bits`:
    /// audio bit depth == log2 of video color levels (1..16).
    Crush { downsample: F32, bits: F32 },
    /// Echo. `time` seconds, `feedback` 0..0.95, `mix` 0..1. Video ghosts
    /// drift by (`shift_x`, `shift_y`) fractions of the canvas per echo.
    Delay { time: F32, feedback: F32, mix: F32, shift_x: F32, shift_y: F32 },
    /// Smear. `size` 0..1 decay, `damp` 0..1 highs damping (video: blur),
    /// `mix` 0..1.
    Reverb { size: F32, damp: F32, mix: F32 },
    /// Codec crunch. `quality` 1 = transparent, 0 = destroyed.
    Compress { quality: F32 },
}

/// The effect of that lower-case name, with the settings that it starts with.
pub open spec fn effect_named(n: Seq<char>) -> Option<EffectKind> {
    if n == "crush"@ || n == "bitcrush"@ || n == "downres"@ {
        Some(EffectKind::Crush { downsample: single(0x40c0_0000), bits: single(0x40c0_0000) })
    } else if n == "delay"@ || n == "echo"@ {
        Some(EffectKind::Delay { time: single(0x3e99_999a), feedback: single(0x3f00_0000), mix: single(0x3f00_0000), shift_x: single(0x3ca3_d70a), shift_y: single(0x0000_0000) })
    } else if n == "reverb"@ || n == "smear"@ {
        Some(EffectKind::Reverb { size: single(0x3f19_999a), damp: single(0x3ecc_cccd), mix: single(0x3eb3_3333) })
    } else if n == "compress"@ || n == "compression"@ || n == "codec"@ {
        Some(EffectKind::Compress { quality: single(0x3e80_0000) })
    } else {
        None
    }
}

/// The canonical name of an effect.
pub open spec fn effect_name(kind: EffectKind) -> Seq<char> {
    match kind {
        EffectKind::Crush { .. } => "crush"@,
        EffectKind::Delay { .. } => "delay"@,
        EffectKind::Reverb { .. } => "reverb"@,
        EffectKind::Compress { .. } => "compress"@,
    }
}

impl EffectKind {
    pub fn parse(name: &str) -> (r: Option<EffectKind>)
        ensures
            r == effect_named(text::lowered(name@)),
    {
        let n: Vec<char> = text::to_lowered(name);
        if text::spells(&n, "crush") || text::spells(&n, "bitcrush") || text::spells(&n, "downres") {
            Some(EffectKind::Crush { downsample: single(0x40c0_0000), bits: single(0x40c0_0000) })
        } else if text::spells(&n, "delay") || text::spells(&n, "echo") {
            Some(EffectKind::Delay { time: single(0x3e99_999a), feedback: single(0x3f00_0000), mix: single(0x3f00_0000), shift_x: single(0x3ca3_d70a), shift_y: single(0x0000_0000) })
        } else if text::spells(&n, "reverb") || text::spells(&n, "smear") {
            Some(EffectKind::Reverb { size: single(0x3f19_999a), damp: single(0x3ecc_cccd), mix: single(0x3eb3_3333) })
        } else if text::spells(&n, "compress") || text::spells(&n, "compression") || text::spells(&n, "codec") {
            Some(EffectKind::Compress { quality: single(0x3e80_0000) })
        } else {
            None
        }
    }

    pub fn name(&self) -> (r: &'static str)
        ensures
            r@ == effect_name(*self),
    {
        match self {
            EffectKind::Crush { .. } => "crush",
            EffectKind::Delay { .. } => "delay",
            EffectKind::Reverb { .. } => "reverb",
            EffectKind::Compress { .. } => "compress",
        }
    }
}

/// The name of every effect reads back as an effect of that name.
pub proof fn law_effect_names_parse(kind: EffectKind)
    ensures
        effect_named(effect_name(kind)) is Some,
        effect_name(effect_named(effect_name(kind))->0) == effect_name(kind),
{
    reveal_strlit("crush");
    reveal_strlit("bitcrush");
    reveal_strlit("downres");
    reveal_strlit("delay");
    reveal_strlit("echo");
    reveal_strlit("reverb");
    reveal_strlit("smear");
    reveal_strlit("compress");
    assert("delay"@[0] == 'd' && "reverb"@[0] == 'r' && "compress"@[1] == 'o');
    assert("crush"@[1] == 'r' && "bitcrush"@[0] == 'b' && "downres"@[1] == 'o');
    assert("echo"@[0] == 'e' && "smear"@[0] == 's');
}

/// One effect in a chain: a kind plus the two correspondence dials.
#[derive(Clone, Copy, Debug, PartialEq)]
pub struct AvEffect {
    pub kind: EffectKind,
    /// How strongly the audio side applies (0 = bypass audio).
    pub audio: F32,
    /// How strongly the video side applies (0 = bypass video).
    pub video: F32,
}

/// A kind after its parameter of that key is set; `None` where it has none such.
pub open spec fn kind_set(kind: EffectKind, key: Seq<char>, v: F32) -> Option<EffectKind> {
    match kind {
        EffectKind::Crush { downsample, bits } => if key == "downsample"@ || key == "downres"@ {
            Some(EffectKind::Crush { downsample: v.limit(single(0x3f80_0000), single(0x4280_0000)), bits })
        } else if key == "bits"@ {
            Some(EffectKind::Crush { downsample, bits: v.limit(single(0x3f80_0000), single(0x4180_0000)) })
        } else {
            None
        },
        EffectKind::Delay { time, feedback, mix, shift_x, shift_y } => if key == "time"@ {
            Some(EffectKind::Delay { time: v.limit(single(0x3c23_d70a), single(0x4080_0000)), feedback, mix, shift_x, shift_y })
        } else if key == "feedback"@ {
            Some(EffectKind::Delay { time, feedback: v.limit(single(0x0000_0000), single(0x3f73_3333)), mix, shift_x, shift_y })
        } else if key == "mix"@ {
            Some(EffectKind::Delay { time, feedback, mix: v.limit(single(0x0000_0000), single(0x3f80_0000)), shift_x, shift_y })
        } else if key == "shift_x"@ {
            Some(EffectKind::Delay { time, feedback, mix, shift_x: v.limit(single(0xbf00_0000), single(0x3f00_0000)), shift_y })
        } else if key == "shift_y"@ {
            Some(EffectKind::Delay { time, feedback, mix, shift_x, shift_y: v.limit(single(0xbf00_0000), single(0x3f00_0000)) })
        } else {
            None
        },
        EffectKind::Reverb { size, damp, mix } => if key == "size"@ {
            Some(EffectKind::Reverb { size: v.limit(single(0x0000_0000), single(0x3f80_0000)), damp, mix })
        } else if key == "damp"@ {
            Some(EffectKind::Reverb { size, damp: v.limit(single(0x0000_0000), single(0x3f80_0000)), mix })
        } else if key == "mix"@ {
            Some(EffectKind::Reverb { size, damp, mix: v.limit(single(0x0000_0000), single(0x3f80_0000)) })
        } else {
            None
        },
        EffectKind::Compress { quality } => if key == "quality"@ {
            Some(EffectKind::Compress { quality: v.limit(single(0x0000_0000), single(0x3f80_0000)) })
        } else {
            None
        },
    }
}

/// An effect after its parameter of that key is set; `None` where it has none such.
pub open spec fn effect_set(fx: AvEffect, key: Seq<char>, v: F32) -> Option<AvEffect> {
    if key == "audio"@ {
        Some(AvEffect { audio: v.limit(single(0), single(0x3f80_0000)), ..fx })
    } else if key == "video"@ {
        Some(AvEffect { video: v.limit(single(0), single(0x3f80_0000)), ..fx })
    } else {
        match kind_set(fx.kind, key, v) {
            Some(kind) => Some(AvEffect { kind, ..fx }),
            None => None,
        }
    }
}

impl AvEffect {
    pub fn new(kind: EffectKind) -> (r: AvEffect)
        ensures
            r == (AvEffect { kind, audio: single(0x3f80_0000), video: single(0x3f80_0000) }),
    {
        AvEffect { kind, audio: single(0x3f80_0000), video: single(0x3f80_0000) }
    }

    fn set_kind_param(&mut self, key: Vec<char>, value: F32) -> (r: bool)
        ensures
            r == kind_set(old(self).kind, key@, value) is Some,
            final(self).audio == old(self).audio,
            final(self).video == old(self).video,
            final(self).kind == if r {
                kind_set(old(self).kind, key@, value)->0
            } else {
                old(self).kind
            },
    {
        match self.kind {
            EffectKind::Crush { downsample, bits } => if text::spells(&key, "downsample") || text::spells(&key, "downres") {
                self.kind = EffectKind::Crush { downsample: value.limit(single(0x3f80_0000), single(0x4280_0000)), bits };
                true
            } else if text::spells(&key, "bits") {
                self.kind = EffectKind::Crush { downsample, bits: value.limit(single(0x3f80_0000), single(0x4180_0000)) };
                true
            } else {
                false
            },
            EffectKind::Delay { time, feedback, mix, shift_x, shift_y } => if text::spells(&key, "time") {
                self.kind = EffectKind::Delay { time: value.limit(single(0x3c23_d70a), single(0x4080_0000)), feedback, mix, shift_x, shift_y };
                true
            } else if text::spells(&key, "feedback") {
                self.kind = EffectKind::Delay { time, feedback: value.limit(single(0x0000_0000), single(0x3f73_3333)), mix, shift_x, shift_y };
                true
            } else if text::spells(&key, "mix") {
                self.kind = EffectKind::Delay { time, feedback, mix: value.limit(single(0x0000_0000), single(0x3f80_0000)), shift_x, shift_y };
                true
            } else if text::spells(&key, "shift_x") {
                self.kind = EffectKind::Delay { time, feedback, mix, shift_x: value.limit(single(0xbf00_0000), single(0x3f00_0000)), shift_y };
                true
            } else if text::spells(&key, "shift_y") {
                self.kind = EffectKind::Delay { time, feedback, mix, shift_x, shift_y: value.limit(single(0xbf00_0000), single(0x3f00_0000)) };
                true
            } else {
                false
            },
            EffectKind::Reverb { size, damp, mix } => if text::spells(&key, "size") {
                self.kind = EffectKind::Reverb { size: value.limit(single(0x0000_0000), single(0x3f80_0000)), damp, mix };
                true
            } else if text::spells(&key, "damp") {
                self.kind = EffectKind::Reverb { size, damp: value.limit(single(0x0000_0000), single(0x3f80_0000)), mix };
                true
            } else if text::spells(&key, "mix") {
                self.kind = EffectKind::Reverb { size, damp, mix: value.limit(single(0x0000_0000), single(0x3f80_0000)) };
                true
            } else {
                false
            },
            EffectKind::Compress { quality } => if text::spells(&key, "quality") {
                self.kind = EffectKind::Compress { quality: value.limit(single(0x0000_0000), single(0x3f80_0000)) };
                true
            } else {
                false
            },
        }
    }

    /// Set a parameter by name. Returns Err for unknown names.
    pub fn set_param(&mut self, name: &str, value: F32) -> (r: Result<(), String>)
        ensures
            match effect_set(*old(self), text::keyed(name@), value) {
                Some(fx) => r is Ok && *final(self) == fx,
                None => r is Err && *final(self) == *old(self) && r->Err_0@ == effect_name(
                    old(self).kind,
                ) + " has no parameter '"@ + name@ + "'"@,
            },
    {
        let key: Vec<char> = text::key(name);
        if text::spells(&key, "audio") {
            self.audio = value.limit(single(0), single(0x3f80_0000));
            return Ok(());
        }
        if text::spells(&key, "video") {
            self.video = value.limit(single(0), single(0x3f80_0000));
            return Ok(());
        }
        if self.set_kind_param(key, value) {
            Ok(())
        } else {
            let mut e: String = self.kind.name().to_owned();
            e.append(" has no parameter '");
            e.append(name);
            e.append("'");
            Err(e)
        }
    }
}

/// The value `t` of the way from `a` to `b`.
#[verifier::allow_in_spec]
pub fn lerp<K: Fn(Op, Width, u64, u64) -> u64>(c: &Calc<K>, a: F32, b: F32, t: F32) -> F32
    requires
        c.sound(),
    returns
        (a.add(c, b.sub(c, a).mul(c, t))),
{
    a.add(c, b.sub(c, a).mul(c, t))
}

/// At or below this amount a side of an effect is bypassed: 0.001.
pub const BYPASS: u32 = 0x3a83_126f;

/// From this quality on, compression changes nothing: 0.999.
pub const TRANSPARENT: u32 = 0x3f7f_be77;

} // verus!
