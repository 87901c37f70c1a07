//! What the realtime preview draws: which textures sources become, and the passes that a
//! frame takes on the GPU. Grains are textured quads; effect chains run as fragment passes
//! (pixelate/posterize, ghost-history delay, persistence and blur reverb, separable 8x8
//! DCT compression); tracks composite in z-order.
//!
//! The offline renderer stays the reference used for export; the preview mirrors it
//! closely enough to perform with. Its compression uses a threshold relative to the mean
//! in place of an exact count of coefficients.
use crate::calc::{Calc, Op, Width};
use crate::fx::{AvEffect, EffectKind, BYPASS};
use crate::fx_video::{crunch_of, smear_decay};
use crate::grain::{grain_end, GrainEvent};
use crate::num::{double, single, F32, F64};
use crate::render::{plan_fits, plan_view, ClipPlan, PlanView};
use crate::seq::parts_view;
use crate::timeline::{beats_of_secs, level_opacity, Clip, Project, Track};
use crate::video::{
    draws_of, draws_with, look_at, ColorFilter, ColorFilterMode, Frame, GrainDraw, Look, Rect,
    Rgba, VideoClip,
};
use std::collections::HashMap;
use vstd::prelude::*;

verus! {

broadcast use vstd::std_specs::hash::group_hash_axioms;

/// The widest texture of a source.
pub const MAX_SRC_W: u32 = 256;

/// The most frames of a source that are kept as texture layers.
pub const MAX_SRC_LAYERS: usize = 192;

/// The most frames that a delay remembers.
pub const MAX_HISTORY: usize = 40;

// ---------------------------------------------------------------- textures

/// A source's frames, downscaled and thinned out, as the layers of one texture.
#[derive(Debug)]
pub struct Upload {
    pub width: u32,
    pub height: u32,
    pub layers: usize,
    /// Four bytes for each texel, row by row, layer by layer.
    pub data: Vec<u8>,
    pub duration: F64,
}

/// How much a source of a width is scaled down.
#[verifier::allow_in_spec]
pub fn upload_scale<K: Fn(Op, Width, u64, u64) -> u64>(c: &Calc<K>, width: u32) -> F32
    requires
        c.sound(),
    returns
        (F32::of_count(c, MAX_SRC_W as u64).div(c, F32::of_count(c, width as u64)).min(single(0x3f80_0000))),
{
    F32::of_count(c, MAX_SRC_W as u64).div(c, F32::of_count(c, width as u64)).min(single(0x3f80_0000))
}

/// A length after scaling.
#[verifier::allow_in_spec]
pub fn upload_size<K: Fn(Op, Width, u64, u64) -> u64>(c: &Calc<K>, n: u32, scale: F32) -> u32
    requires
        c.sound(),
    returns
        (if F32::of_count(c, n as u64).mul(c, scale).to_u32(c) < 2 {
            2
        } else {
            F32::of_count(c, n as u64).mul(c, scale).to_u32(c)
        }),
{
    if F32::of_count(c, n as u64).mul(c, scale).to_u32(c) < 2 {
        2
    } else {
        F32::of_count(c, n as u64).mul(c, scale).to_u32(c)
    }
}

/// The place in a length of `n` that a texel shows.
#[verifier::allow_in_spec]
pub fn texel_at<K: Fn(Op, Width, u64, u64) -> u64>(c: &Calc<K>, i: u32, scale: F32, n: u32) -> u32
    requires
        c.sound(),
        n > 0,
    returns
        (if F32::of_count(c, i as u64).div(c, scale).to_u32(c) < n {
            F32::of_count(c, i as u64).div(c, scale).to_u32(c)
        } else {
            (n - 1) as u32
        }),
{
    if F32::of_count(c, i as u64).div(c, scale).to_u32(c) < n {
        F32::of_count(c, i as u64).div(c, scale).to_u32(c)
    } else {
        (n - 1) as u32
    }
}

/// The first `n` texels of row `y` of a frame.
pub open spec fn row_bytes<K: Fn(Op, Width, u64, u64) -> u64>(c: &Calc<K>, f: Frame, scale: F32, y: int, n: nat) -> Seq<u8>
    decreases n,
{
    if n == 0 {
        seq![]
    } else {
        let px = f@.pixel(
            texel_at(c, (n - 1) as u32, scale, f.width) as int,
            texel_at(c, y as u32, scale, f.height) as int,
        );
        row_bytes(c, f, scale, y, (n - 1) as nat) + seq![px.r, px.g, px.b, px.a]
    }
}

/// The first `n` rows of a layer `width` texels wide.
pub open spec fn layer_bytes<K: Fn(Op, Width, u64, u64) -> u64>(c: &Calc<K>, f: Frame, scale: F32, width: nat, n: nat) -> Seq<u8>
    decreases n,
{
    if n == 0 {
        seq![]
    } else {
        layer_bytes(c, f, scale, width, (n - 1) as nat) + row_bytes(c, f, scale, n - 1, width)
    }
}

/// How many of `n` frames become layers.
pub open spec fn layer_count(n: int) -> int {
    if n < MAX_SRC_LAYERS {
        n
    } else {
        MAX_SRC_LAYERS as int
    }
}

/// How many of a video's frames count.
pub open spec fn counted(n: int) -> int {
    if n < 1_000_000 {
        n
    } else {
        1_000_000
    }
}

/// The first `n` layers of a video: frames evenly spread over it.
pub open spec fn upload_bytes<K: Fn(Op, Width, u64, u64) -> u64>(c: &Calc<K>, frames: Seq<Frame>, scale: F32, width: nat, height: nat, n: nat) -> Seq<u8>
    decreases n,
{
    if n == 0 {
        seq![]
    } else {
        let total = counted(frames.len() as int);
        upload_bytes(c, frames, scale, width, height, (n - 1) as nat) + layer_bytes(
            c,
            frames[((n - 1) * total) / layer_count(total)],
            scale,
            width,
            height,
        )
    }
}

fn push_row<K: Fn(Op, Width, u64, u64) -> u64>(c: &Calc<K>, f: &Frame, scale: F32, y: u32, width: u32, data: &mut Vec<u8>)
    requires
        c.sound(),
        f.wf(),
        f.width > 0,
        f.height > 0,
    ensures
        final(data)@ == old(data)@ + row_bytes(c, *f, scale, y as int, width as nat),
{
    let ghost first = data@;
    let sy: u32 = texel_at(c, y, scale, f.height);
    let mut x: u32 = 0;
    while x < width
        invariant
            c.sound(),
            f.wf(),
            f.width > 0,
            f.height > 0,
            sy == texel_at(c, y, scale, f.height),
            sy < f.height,
            x <= width,
            data@ =~= first + row_bytes(c, *f, scale, y as int, x as nat),
        decreases width - x,
    {
        let sx: u32 = texel_at(c, x, scale, f.width);
        let i: usize = f.index(sx, sy);
        let px: Rgba = f.load(i);
        data.push(px.r);
        data.push(px.g);
        data.push(px.b);
        data.push(px.a);
        x += 1;
    }
}

fn push_layer<K: Fn(Op, Width, u64, u64) -> u64>(c: &Calc<K>, f: &Frame, scale: F32, width: u32, height: u32, data: &mut Vec<u8>)
    requires
        c.sound(),
        f.wf(),
        f.width > 0,
        f.height > 0,
    ensures
        final(data)@ == old(data)@ + layer_bytes(c, *f, scale, width as nat, height as nat),
{
    let ghost first = data@;
    let mut y: u32 = 0;
    while y < height
        invariant
            c.sound(),
            f.wf(),
            f.width > 0,
            f.height > 0,
            y <= height,
            data@ =~= first + layer_bytes(c, *f, scale, width as nat, y as nat),
        decreases height - y,
    {
        push_row(c, f, scale, y, width, data);
        y += 1;
    }
}

/// What a source's video becomes as a texture; nothing where it has no frames.
pub fn upload<K: Fn(Op, Width, u64, u64) -> u64>(c: &Calc<K>, video: &VideoClip) -> (r: Option<Upload>)
    requires
        c.sound(),
        video.wf(),
    ensures
        r is Some <==> video.frames@.len() > 0,
        r is Some ==> {
            let u = r->0;
            let first = video.frames@[0];
            let scale = upload_scale(c, first.width);
            &&& u.width == upload_size(c, first.width, scale)
            &&& u.height == upload_size(c, first.height, scale)
            &&& u.layers == layer_count(counted(video.frames@.len() as int))
            &&& u.duration == video.lasts(c)
            &&& u.data@ == upload_bytes(
                c,
                video.frames@,
                scale,
                u.width as nat,
                u.height as nat,
                u.layers as nat,
            )
        },
{
    let n: usize = if video.frames.len() < 1_000_000 {
        video.frames.len()
    } else {
        1_000_000
    };
    if n == 0 {
        return None;
    }
    let take: usize = if n < MAX_SRC_LAYERS {
        n
    } else {
        MAX_SRC_LAYERS
    };
    let scale: F32 = upload_scale(c, video.frames[0].width);
    let width: u32 = upload_size(c, video.frames[0].width, scale);
    let height: u32 = upload_size(c, video.frames[0].height, scale);
    let mut data: Vec<u8> = Vec::new();
    let mut l: usize = 0;
    while l < take
        invariant
            c.sound(),
            video.wf(),
            n == counted(video.frames@.len() as int),
            0 < n <= 1_000_000,
            take == layer_count(n as int),
            0 < take <= 192,
            l <= take,
            data@ =~= upload_bytes(c, video.frames@, scale, width as nat, height as nat, l as nat),
        decreases take - l,
    {
        assert(l * n <= 192_000_000 && (l * n) / (take as int) < n) by (nonlinear_arith)
            requires
                0 <= l < take,
                take <= 192,
                0 < n <= 1_000_000,
        ;
        let fi: usize = l * n / take;
        assert(video.frames@[fi as int].wf() && video.frames@[fi as int].width > 0);
        push_layer(c, &video.frames[fi], scale, width, height, &mut data);
        l += 1;
    }
    Some(Upload { width, height, layers: take, data, duration: video.duration(c) })
}

/// What is known of a source on the GPU.
#[derive(Clone, Copy, Debug)]
pub struct Texture {
    pub layers: usize,
    pub duration: F64,
}

/// A source's duration, never zero.
#[verifier::allow_in_spec]
pub fn texture_secs(duration: F64) -> F64
    returns
        (duration.max(double(0x3eb0_c6f7_a0b5_ed8d))),
{
    duration.max(double(0x3eb0_c6f7_a0b5_ed8d))
}

/// The layer that shows a time of the source.
#[verifier::allow_in_spec]
pub fn layer_at<K: Fn(Op, Width, u64, u64) -> u64>(c: &Calc<K>, src_time: F64, secs: F64, layers: u64) -> F32
    requires
        c.sound(),
    returns
        (src_time.div(c, secs).rem_euclid(c, double(0x3ff0_0000_0000_0000)).mul(c, F64::of_count(c, layers)).min(
            F64::of_count(c, layers).sub(c, double(0x3ff0_0000_0000_0000)),
        ).to_f32(c).floor(c)),
{
    src_time.div(c, secs).rem_euclid(c, double(0x3ff0_0000_0000_0000)).mul(c, F64::of_count(c, layers)).min(
        F64::of_count(c, layers).sub(c, double(0x3ff0_0000_0000_0000)),
    ).to_f32(c).floor(c)
}

// ------------------------------------------------------------------ passes

/// Something that a pass reads or writes.
#[derive(Clone, Copy, Debug, PartialEq, Eq, Structural)]
pub enum Surface {
    Master,
    Track,
    Clip,
    Ping,
    Pong,
    /// The two surfaces that hold coefficients.
    FloatPing,
    FloatPong,
    /// A slot of what a delay remembers.
    History { key: u64, slot: usize },
    /// One of the two sides of what a reverb smears.
    Accum { key: u64, side: usize },
}

/// A color filter as the grain pass takes it.
#[derive(Clone, Copy, Debug, PartialEq)]
pub struct FilterPass {
    /// 0 off, 1 keep, 2 remove.
    pub mode: i32,
    pub hue_center: F32,
    pub half_width: F32,
    pub softness: F32,
    pub sat_min: F32,
    pub val_min: F32,
}

/// The steps of a transform pass.
#[derive(Clone, Copy, Debug, PartialEq, Eq, Structural)]
pub enum DctStep {
    Rows,
    Columns,
    InverseColumns,
    InverseRows,
}

/// One thing for the GPU to do.
#[derive(Clone, Copy, Debug)]
pub enum Pass {
    Clear { to: Surface, opaque: bool },
    /// Grains of a source follow, blended onto the clip's surface.
    Source { id: usize, additive: F32, filter: FilterPass },
    /// A patch of a frame, drawn over a rectangle that is turned by `rotation` radians.
    Quad { layer: F32, patch: Rect, alpha: F32, hue: F32, rect: Rect, rotation: F32 },
    Crush { from: Surface, to: Surface, block: F32, levels: F32 },
    Delay {
        from: Surface,
        echo: Option<Surface>,
        to: Surface,
        shift_x: F32,
        shift_y: F32,
        mix: F32,
    },
    /// A surface gathered into a smear.
    Gather { from: Surface, acc: Surface, to: Surface, decay: F32 },
    /// A smear laid under a surface.
    Smear { from: Surface, acc: Surface, to: Surface, radius: F32, mix: F32 },
    Dct { from: Surface, to: Surface, step: DctStep },
    Quantize { from: Surface, to: Surface, crunch: F32, threshold: F32 },
    /// A surface copied at an opacity.
    Record { from: Surface, to: Surface, opacity: F32 },
    /// A surface blended over another.
    Blend { from: Surface, to: Surface, opacity: F32, additive: F32 },
    Present { from: Surface },
}

// ----------------------------------------------------------------- history

/// What an effect of the preview remembers.
#[derive(Clone, Copy, Debug, PartialEq, Eq, Structural)]
pub struct FxInst {
    /// How many slots the history has.
    pub slots: usize,
    /// The slot to record into next.
    pub head: usize,
    /// How many frames were recorded, as far as it matters.
    pub filled: usize,
    /// The side of the smear that is current.
    pub side: usize,
}

impl FxInst {
    pub open spec fn fresh() -> FxInst {
        FxInst { slots: 0, head: 0, filled: 0, side: 0 }
    }

    /// Within what the history can hold.
    pub open spec fn wf(self) -> bool {
        self.slots <= MAX_HISTORY && self.head <= MAX_HISTORY && self.filled <= MAX_HISTORY + 1
            && self.side <= 1
    }

    /// The slot recorded `frames` frames ago, if that many were.
    pub open spec fn tail(self, frames: int) -> Option<usize> {
        if self.filled < frames || self.slots < frames {
            None
        } else {
            Some(((self.head + self.slots - frames) % (self.slots as int)) as usize)
        }
    }

    /// The slot that is recorded into next.
    pub open spec fn next_slot(self, frames: int) -> usize {
        (self.head as int % frames) as usize
    }

    /// After one more frame of a history of `frames` frames.
    pub open spec fn recorded(self, frames: int) -> FxInst {
        FxInst {
            slots: if self.slots < frames {
                frames as usize
            } else {
                self.slots
            },
            head: ((self.head as int % frames + 1) % frames) as usize,
            filled: if self.filled + 1 < frames + 1 {
                (self.filled + 1) as usize
            } else {
                (frames + 1) as usize
            },
            side: self.side,
        }
    }

    /// The frame from `frames` steps ago, if the ring has filled.
    pub fn history_tail(&self, frames: usize) -> (r: Option<usize>)
        requires
            self.wf(),
            0 < frames <= MAX_HISTORY,
        ensures
            r == self.tail(frames as int),
    {
        if self.filled < frames || self.slots < frames {
            return None;
        }
        Some((self.head + self.slots - frames) % self.slots)
    }

    /// Record a frame; the slot for it.
    pub fn push_history(&mut self, frames: usize) -> (r: usize)
        requires
            old(self).wf(),
            0 < frames <= MAX_HISTORY,
        ensures
            final(self).wf(),
            r == old(self).next_slot(frames as int),
            *final(self) == old(self).recorded(frames as int),
    {
        let slot: usize = self.head % frames;
        if self.slots < frames {
            self.slots = frames;
        }
        self.head = (slot + 1) % frames;
        self.filled = if self.filled < frames {
            self.filled + 1
        } else {
            frames + 1
        };
        slot
    }
}

/// What the effects of a preview remember, by key.
pub open spec fn inst_of(fx: Map<u64, FxInst>, key: u64) -> FxInst {
    if fx.contains_key(key) {
        fx[key]
    } else {
        FxInst::fresh()
    }
}

/// Whether all that is remembered is within bounds.
pub open spec fn insts_ok(fx: Map<u64, FxInst>) -> bool {
    forall|k: u64| fx.contains_key(k) ==> (#[trigger] fx[k]).wf()
}

fn recall(fx: &HashMap<u64, FxInst>, key: u64) -> (r: FxInst)
    requires
        insts_ok(fx@),
    ensures
        r == inst_of(fx@, key),
        r.wf(),
{
    match fx.get(&key) {
        Some(inst) => *inst,
        None => FxInst { slots: 0, head: 0, filled: 0, side: 0 },
    }
}

// ------------------------------------------------------------------ chains

/// The key of effect `i` of the chain of a scope.
#[verifier::allow_in_spec]
pub fn effect_key(scope: u64, i: u64) -> u64
    returns
        (scope ^ (i.wrapping_add(1) << 40u64)),
{
    scope ^ (i.wrapping_add(1) << 40u64)
}

/// How many frames a delay of a time looks back.
#[verifier::allow_in_spec]
pub fn delay_frames<K: Fn(Op, Width, u64, u64) -> u64>(c: &Calc<K>, time: F32, fps: F32) -> usize
    requires
        c.sound(),
    returns
        (if time.mul(c, fps).round(c).to_size(c) < 1 {
            1
        } else if time.mul(c, fps).round(c).to_size(c) > MAX_HISTORY {
            MAX_HISTORY
        } else {
            time.mul(c, fps).round(c).to_size(c)
        }),
{
    if time.mul(c, fps).round(c).to_size(c) < 1 {
        1
    } else if time.mul(c, fps).round(c).to_size(c) > MAX_HISTORY {
        MAX_HISTORY
    } else {
        time.mul(c, fps).round(c).to_size(c)
    }
}

/// How large the blocks of a crush are.
#[verifier::allow_in_spec]
pub fn crush_block<K: Fn(Op, Width, u64, u64) -> u64>(c: &Calc<K>, downsample: F32, amount: F32) -> F32
    requires
        c.sound(),
    returns
        (single(0x3f80_0000).add(c, downsample.sub(c, single(0x3f80_0000)).mul(c, amount)).max(single(0x3f80_0000))),
{
    single(0x3f80_0000).add(c, downsample.sub(c, single(0x3f80_0000)).mul(c, amount)).max(single(0x3f80_0000))
}

/// How many levels a crush leaves.
#[verifier::allow_in_spec]
pub fn crush_levels<K: Fn(Op, Width, u64, u64) -> u64>(c: &Calc<K>, bits: F32, amount: F32) -> F32
    requires
        c.sound(),
    returns
        (single(0x4000_0000).pow(c, single(0x4100_0000).add(c, bits.limit(single(0x3f80_0000), single(0x4100_0000)).sub(c, single(0x4100_0000)).mul(c, amount)))),
{
    single(0x4000_0000).pow(c, single(0x4100_0000).add(c, bits.limit(single(0x3f80_0000), single(0x4100_0000)).sub(c, single(0x4100_0000)).mul(c, amount)))
}

/// How far a smear is blurred.
#[verifier::allow_in_spec]
pub fn smear_radius<K: Fn(Op, Width, u64, u64) -> u64>(c: &Calc<K>, damp: F32) -> F32
    requires
        c.sound(),
    returns
        (single(0x3f80_0000).add(c, damp.mul(c, single(0x40a0_0000)))),
{
    single(0x3f80_0000).add(c, damp.mul(c, single(0x40a0_0000)))
}

/// A compression's quality at an amount.
#[verifier::allow_in_spec]
pub fn preview_quality<K: Fn(Op, Width, u64, u64) -> u64>(c: &Calc<K>, quality: F32, amount: F32) -> F32
    requires
        c.sound(),
    returns
        (single(0x3f80_0000).add(c, quality.sub(c, single(0x3f80_0000)).mul(c, amount))),
{
    single(0x3f80_0000).add(c, quality.sub(c, single(0x3f80_0000)).mul(c, amount))
}

/// The surface to draw on while reading another.
#[verifier::allow_in_spec]
pub fn other(s: Surface) -> Surface
    returns
        (if s == Surface::Ping {
            Surface::Pong
        } else {
            Surface::Ping
        }),
{
    if s == Surface::Ping {
        Surface::Pong
    } else {
        Surface::Ping
    }
}

/// Where a chain has got to: what was last drawn on, and what its effects remember.
pub struct Chain {
    pub passes: Seq<Pass>,
    pub cur: Surface,
    pub fx: Map<u64, FxInst>,
}

/// A frame recorded for a delay.
pub open spec fn with_record(s: Chain, key: u64, frames: int, opacity: F32) -> Chain {
    let inst = inst_of(s.fx, key);
    Chain {
        passes: s.passes.push(
            Pass::Record {
                from: s.cur,
                to: Surface::History { key, slot: inst.next_slot(frames) },
                opacity,
            },
        ),
        cur: s.cur,
        fx: s.fx.insert(key, inst.recorded(frames)),
    }
}

/// The delay's pass: the frame from `frames` frames ago laid under this one.
pub open spec fn delay_pass<K: Fn(Op, Width, u64, u64) -> u64>(c: &Calc<K>, s: Chain, key: u64, frames: int, mix: F32, video: F32, shift_x: F32, shift_y: F32) -> Pass {
    match inst_of(s.fx, key).tail(frames) {
        Some(slot) => Pass::Delay {
            from: s.cur,
            echo: Some(Surface::History { key, slot }),
            to: other(s.cur),
            shift_x,
            shift_y,
            mix: mix.mul(c, video),
        },
        None => Pass::Delay {
            from: s.cur,
            echo: None,
            to: other(s.cur),
            shift_x,
            shift_y,
            mix: single(0),
        },
    }
}

/// The passes of a reverb: the surface is gathered into the other side of the smear, which
/// is then laid under it.
pub open spec fn reverb_passes<K: Fn(Op, Width, u64, u64) -> u64>(c: &Calc<K>, s: Chain, key: u64, size: F32, damp: F32, mix: F32, video: F32) -> Chain {
    let inst = inst_of(s.fx, key);
    let next: usize = if inst.side == 0 {
        1
    } else {
        0
    };
    Chain {
        passes: s.passes.push(
            Pass::Gather {
                from: s.cur,
                acc: Surface::Accum { key, side: inst.side },
                to: Surface::Accum { key, side: next },
                decay: smear_decay(c, size),
            },
        ).push(
            Pass::Smear {
                from: s.cur,
                acc: Surface::Accum { key, side: next },
                to: other(s.cur),
                radius: smear_radius(c, damp),
                mix: mix.mul(c, video),
            },
        ),
        cur: other(s.cur),
        fx: s.fx.insert(key, FxInst { side: next, ..inst }),
    }
}

/// The passes of a compression: to coefficients, thinned, and back.
pub open spec fn compress_passes<K: Fn(Op, Width, u64, u64) -> u64>(c: &Calc<K>, s: Chain, q: F32) -> Chain {
    let crunch = crunch_of(c, q);
    Chain {
        passes: s.passes.push(
            Pass::Dct { from: s.cur, to: Surface::FloatPing, step: DctStep::Rows },
        ).push(
            Pass::Dct { from: Surface::FloatPing, to: Surface::FloatPong, step: DctStep::Columns },
        ).push(
            Pass::Quantize {
                from: Surface::FloatPong,
                to: Surface::FloatPing,
                crunch,
                threshold: crunch.mul(c, single(0x3eb3_3333)),
            },
        ).push(
            Pass::Dct {
                from: Surface::FloatPing,
                to: Surface::FloatPong,
                step: DctStep::InverseColumns,
            },
        ).push(
            Pass::Dct { from: Surface::FloatPong, to: other(s.cur), step: DctStep::InverseRows },
        ),
        cur: other(s.cur),
        fx: s.fx,
    }
}

/// One effect of a chain. One that is turned down is left out; a delay that is turned
/// down still records, for when it is turned up. Compression takes surfaces that hold
/// coefficients, where there are any.
pub open spec fn chain_step<K: Fn(Op, Width, u64, u64) -> u64>(c: &Calc<K>, s: Chain, fx: AvEffect, key: u64, fps: F32, floats: bool) -> Chain {
    if fx.video.le(single(BYPASS)) {
        match fx.kind {
            EffectKind::Delay { time, .. } => with_record(
                s,
                key,
                delay_frames(c, time, fps) as int,
                single(0x3f80_0000),
            ),
            _ => s,
        }
    } else {
        match fx.kind {
            EffectKind::Crush { downsample, bits } => Chain {
                passes: s.passes.push(
                    Pass::Crush {
                        from: s.cur,
                        to: other(s.cur),
                        block: crush_block(c, downsample, fx.video),
                        levels: crush_levels(c, bits, fx.video),
                    },
                ),
                cur: other(s.cur),
                fx: s.fx,
            },
            EffectKind::Delay { time, feedback, mix, shift_x, shift_y } => {
                let frames = delay_frames(c, time, fps) as int;
                with_record(
                    Chain {
                        passes: s.passes.push(
                            delay_pass(c, s, key, frames, mix, fx.video, shift_x, shift_y),
                        ),
                        cur: other(s.cur),
                        fx: s.fx,
                    },
                    key,
                    frames,
                    feedback,
                )
            },
            EffectKind::Reverb { size, damp, mix } => reverb_passes(
                c,
                s,
                key,
                size,
                damp,
                mix,
                fx.video,
            ),
            EffectKind::Compress { quality } => {
                let q = preview_quality(c, quality, fx.video);
                if !floats || single(0x3f7f_be77).le(q) {
                    s
                } else {
                    compress_passes(c, s, q)
                }
            },
        }
    }
}

/// The first `n` effects of a chain.
pub open spec fn chain_passes<K: Fn(Op, Width, u64, u64) -> u64>(c: &Calc<K>, s: Chain, chain: Seq<AvEffect>, scope: u64, fps: F32, floats: bool, n: int) -> Chain
    decreases n,
{
    if n <= 0 {
        s
    } else {
        chain_step(
            c,
            chain_passes(c, s, chain, scope, fps, floats, n - 1),
            chain[n - 1],
            effect_key(scope, (n - 1) as u64),
            fps,
            floats,
        )
    }
}

/// A preview in the making: the passes so far, and what the effects remember.
#[derive(Debug)]
pub struct Preview {
    /// What the effects remember from frame to frame.
    pub fx: HashMap<u64, FxInst>,
    pub passes: Vec<Pass>,
}

impl Preview {
    pub open spec fn wf(self) -> bool {
        insts_ok(self.fx@)
    }

    /// The chain that is about to start, or has got to a surface.
    pub open spec fn at(self, cur: Surface) -> Chain {
        Chain { passes: self.passes@, cur, fx: self.fx@ }
    }

    pub fn new() -> (r: Preview)
        ensures
            r.wf(),
            r.fx@ == Map::<u64, FxInst>::empty(),
            r.passes@.len() == 0,
    {
        Preview { fx: HashMap::new(), passes: Vec::new() }
    }

    fn record(&mut self, key: u64, frames: usize, from: Surface, opacity: F32)
        requires
            old(self).wf(),
            0 < frames <= MAX_HISTORY,
        ensures
            final(self).wf(),
            final(self).at(from) == with_record(old(self).at(from), key, frames as int, opacity),
    {
        let mut inst: FxInst = recall(&self.fx, key);
        let slot: usize = inst.push_history(frames);
        self.passes.push(Pass::Record { from, to: Surface::History { key, slot }, opacity });
        let ghost before = self.fx@;
        self.fx.insert(key, inst);
        assert(insts_ok(self.fx@)) by {
            assert forall|k: u64| self.fx@.contains_key(k) implies (#[trigger] self.fx@[k]).wf() by {
                if k != key {
                    assert(before.contains_key(k));
                }
            }
        }
    }

    fn delay<K: Fn(Op, Width, u64, u64) -> u64>(&mut self, c: &Calc<K>, fx: &AvEffect, key: u64, cur: Surface, fps: F32, floats: bool) -> (r: Surface)
        requires
            c.sound(),
            old(self).wf(),
            fx.kind is Delay,
            !fx.video.le(single(BYPASS)),
        ensures
            final(self).wf(),
            final(self).at(r) == chain_step(c, old(self).at(cur), *fx, key, fps, floats),
    {
        if let EffectKind::Delay { time, feedback, mix, shift_x, shift_y } = fx.kind {
            let frames: usize = delay_frames(c, time, fps);
            let inst: FxInst = recall(&self.fx, key);
            let out: Surface = other(cur);
            match inst.history_tail(frames) {
                Some(slot) => {
                    self.passes.push(
                        Pass::Delay {
                            from: cur,
                            echo: Some(Surface::History { key, slot }),
                            to: out,
                            shift_x,
                            shift_y,
                            mix: mix.mul(c, fx.video),
                        },
                    );
                },
                None => {
                    self.passes.push(
                        Pass::Delay {
                            from: cur,
                            echo: None,
                            to: out,
                            shift_x,
                            shift_y,
                            mix: single(0),
                        },
                    );
                },
            }
            self.record(key, frames, out, feedback);
            out
        } else {
            cur
        }
    }

    fn reverb<K: Fn(Op, Width, u64, u64) -> u64>(&mut self, c: &Calc<K>, fx: &AvEffect, key: u64, cur: Surface, fps: F32, floats: bool) -> (r: Surface)
        requires
            c.sound(),
            old(self).wf(),
            fx.kind is Reverb,
            !fx.video.le(single(BYPASS)),
        ensures
            final(self).wf(),
            final(self).at(r) == chain_step(c, old(self).at(cur), *fx, key, fps, floats),
    {
        if let EffectKind::Reverb { size, damp, mix } = fx.kind {
            let mut inst: FxInst = recall(&self.fx, key);
            let next: usize = if inst.side == 0 {
                1
            } else {
                0
            };
            let out: Surface = other(cur);
            self.passes.push(
                Pass::Gather {
                    from: cur,
                    acc: Surface::Accum { key, side: inst.side },
                    to: Surface::Accum { key, side: next },
                    decay: smear_decay(c, size),
                },
            );
            self.passes.push(
                Pass::Smear {
                    from: cur,
                    acc: Surface::Accum { key, side: next },
                    to: out,
                    radius: smear_radius(c, damp),
                    mix: mix.mul(c, fx.video),
                },
            );
            inst.side = next;
            let ghost before = self.fx@;
            self.fx.insert(key, inst);
            assert(insts_ok(self.fx@)) by {
                assert forall|k: u64| self.fx@.contains_key(k) implies (
                #[trigger] self.fx@[k]).wf() by {
                    if k != key {
                        assert(before.contains_key(k));
                    }
                }
            }
            out
        } else {
            cur
        }
    }

    fn compress<K: Fn(Op, Width, u64, u64) -> u64>(&mut self, c: &Calc<K>, q: F32, cur: Surface) -> (r: Surface)
        requires
            c.sound(),
            old(self).wf(),
        ensures
            final(self).wf(),
            final(self).at(r) == compress_passes(c, old(self).at(cur), q),
    {
        let crunch: F32 = crunch_of(c, q);
        let out: Surface = other(cur);
        self.passes.push(Pass::Dct { from: cur, to: Surface::FloatPing, step: DctStep::Rows });
        self.passes.push(
            Pass::Dct { from: Surface::FloatPing, to: Surface::FloatPong, step: DctStep::Columns },
        );
        self.passes.push(
            Pass::Quantize {
                from: Surface::FloatPong,
                to: Surface::FloatPing,
                crunch,
                threshold: crunch.mul(c, single(0x3eb3_3333)),
            },
        );
        self.passes.push(
            Pass::Dct {
                from: Surface::FloatPing,
                to: Surface::FloatPong,
                step: DctStep::InverseColumns,
            },
        );
        self.passes.push(
            Pass::Dct { from: Surface::FloatPong, to: out, step: DctStep::InverseRows },
        );
        out
    }

    fn apply_effect<K: Fn(Op, Width, u64, u64) -> u64>(&mut self, c: &Calc<K>, fx: &AvEffect, key: u64, cur: Surface, fps: F32, floats: bool) -> (r: Surface)
        requires
            c.sound(),
            old(self).wf(),
        ensures
            final(self).wf(),
            final(self).at(r) == chain_step(c, old(self).at(cur), *fx, key, fps, floats),
    {
        if fx.video.le(single(BYPASS)) {
            if let EffectKind::Delay { time, .. } = fx.kind {
                self.record(key, delay_frames(c, time, fps), cur, single(0x3f80_0000));
            }
            return cur;
        }
        match fx.kind {
            EffectKind::Crush { downsample, bits } => {
                let out: Surface = other(cur);
                self.passes.push(
                    Pass::Crush {
                        from: cur,
                        to: out,
                        block: crush_block(c, downsample, fx.video),
                        levels: crush_levels(c, bits, fx.video),
                    },
                );
                out
            },
            EffectKind::Delay { .. } => self.delay(c, fx, key, cur, fps, floats),
            EffectKind::Reverb { .. } => self.reverb(c, fx, key, cur, fps, floats),
            EffectKind::Compress { quality } => {
                let q: F32 = preview_quality(c, quality, fx.video);
                if !floats || single(0x3f7f_be77).le(q) {
                    cur
                } else {
                    self.compress(c, q, cur)
                }
            },
        }
    }

    /// Process an effect chain over a surface; the surface with the result.
    pub fn apply_chain<K: Fn(Op, Width, u64, u64) -> u64>(&mut self, c: &Calc<K>, chain: &Vec<AvEffect>, scope: u64, from: Surface, fps: F32, floats: bool) -> (r: Surface)
        requires
            c.sound(),
            old(self).wf(),
        ensures
            final(self).wf(),
            final(self).at(r) == chain_passes(
                c,
                old(self).at(from),
                chain@,
                scope,
                fps,
                floats,
                chain@.len() as int,
            ),
    {
        let mut cur: Surface = from;
        let mut i: usize = 0;
        while i < chain.len()
            invariant
                c.sound(),
                self.wf(),
                i <= chain@.len(),
                self.at(cur) == chain_passes(
                    c,
                    old(self).at(from),
                    chain@,
                    scope,
                    fps,
                    floats,
                    i as int,
                ),
            decreases chain.len() - i,
        {
            cur = self.apply_effect(c, &chain[i], effect_key(scope, i as u64), cur, fps, floats);
            i += 1;
        }
        cur
    }
}

// ------------------------------------------------------------------- scenes

/// A clip's color filter as the grain pass takes it.
pub open spec fn filter_pass<K: Fn(Op, Width, u64, u64) -> u64>(c: &Calc<K>, f: Option<ColorFilter>) -> FilterPass {
    match f {
        None => FilterPass {
            mode: 0,
            hue_center: single(0),
            half_width: single(0),
            softness: single(0),
            sat_min: single(0),
            val_min: single(0),
        },
        Some(f) => FilterPass {
            mode: if f.mode == ColorFilterMode::Keep {
                1
            } else {
                2
            },
            hue_center: f.hue_center,
            half_width: f.hue_width.div(c, single(0x4000_0000)),
            softness: f.softness,
            sat_min: f.sat_min,
            val_min: f.val_min,
        },
    }
}

fn to_filter_pass<K: Fn(Op, Width, u64, u64) -> u64>(c: &Calc<K>, f: &Option<ColorFilter>) -> (r: FilterPass)
    requires
        c.sound(),
    ensures
        r == filter_pass(c, *f),
{
    match f {
        None => FilterPass {
            mode: 0,
            hue_center: single(0),
            half_width: single(0),
            softness: single(0),
            sat_min: single(0),
            val_min: single(0),
        },
        Some(f) => FilterPass {
            mode: match f.mode {
                ColorFilterMode::Keep => 1,
                ColorFilterMode::Remove => 2,
            },
            hue_center: f.hue_center,
            half_width: f.hue_width.div(c, single(0x4000_0000)),
            softness: f.softness,
            sat_min: f.sat_min,
            val_min: f.val_min,
        },
    }
}

/// Whether a grain is there at a time.
pub open spec fn sounding<K: Fn(Op, Width, u64, u64) -> u64>(c: &Calc<K>, e: GrainEvent, t: F64) -> bool {
    e.onset.le(t) && t.lt(grain_end(c, e))
}

/// Whether any grain of some parts is there at a time.
pub open spec fn parts_active<K: Fn(Op, Width, u64, u64) -> u64>(c: &Calc<K>, parts: Seq<(usize, Seq<GrainEvent>)>, t: F64) -> bool {
    exists|i: int, j: int|
        0 <= i < parts.len() && 0 <= j < parts[i].1.len() && sounding(
            c,
            (#[trigger] parts[i].1[j]),
            t,
        )
}

fn is_active<K: Fn(Op, Width, u64, u64) -> u64>(c: &Calc<K>, parts: &Vec<(usize, Vec<GrainEvent>)>, t: F64) -> (r: bool)
    requires
        c.sound(),
    ensures
        r == parts_active(c, parts_view(parts@), t),
{
    let ghost pv = parts_view(parts@);
    let mut i: usize = 0;
    while i < parts.len()
        invariant
            c.sound(),
            pv == parts_view(parts@),
            i <= parts@.len(),
            forall|a: int, b: int|
                0 <= a < i && 0 <= b < pv[a].1.len() ==> !sounding(c, (#[trigger] pv[a].1[b]), t),
        decreases parts.len() - i,
    {
        let events: &Vec<GrainEvent> = &parts[i].1;
        assert(pv[i as int].1 == events@);
        let mut j: usize = 0;
        while j < events.len()
            invariant
                c.sound(),
                pv == parts_view(parts@),
                i < parts@.len(),
                events@ == pv[i as int].1,
                j <= events@.len(),
                forall|b: int| 0 <= b < j ==> !sounding(c, (#[trigger] events@[b]), t),
            decreases events.len() - j,
        {
            let e: GrainEvent = events[j];
            if e.onset.le(t) && t.lt(e.end(c)) {
                assert(sounding(c, pv[i as int].1[j as int], t));
                return true;
            }
            j += 1;
        }
        i += 1;
    }
    false
}

/// A grain as a quad.
pub open spec fn quad_pass<K: Fn(Op, Width, u64, u64) -> u64>(c: &Calc<K>, d: GrainDraw, secs: F64, layers: int) -> Pass {
    Pass::Quad {
        layer: layer_at(c, d.src_time, secs, layers as u64),
        patch: d.patch,
        alpha: d.alpha,
        hue: d.hue_shift,
        rect: d.dest,
        rotation: d.rotation,
    }
}

/// How a part's grains look.
pub open spec fn part_look<K: Fn(Op, Width, u64, u64) -> u64>(c: &Calc<K>, project: Project, clip: Clip, p: PlanView, secs: F64) -> Look {
    look_at(c, p.style, clip.link, clip.transform, secs, project.width, project.height)
}

/// The passes of the first `n` parts of a clip: for each source that is on the GPU, its
/// grains.
pub open spec fn parts_passes<K: Fn(Op, Width, u64, u64) -> u64>(c: &Calc<K>, project: Project, clip: Clip, p: PlanView, textures: Seq<Option<Texture>>, t: F64, n: int) -> Seq<Pass>
    decreases n,
{
    if n <= 0 {
        seq![]
    } else {
        let before = parts_passes(c, project, clip, p, textures, t, n - 1);
        let (sid, events) = p.parts[n - 1];
        if sid < textures.len() && textures[sid as int] is Some {
            let tex = textures[sid as int]->0;
            let secs = texture_secs(tex.duration);
            let draws = draws_of(c, part_look(c, project, clip, p, secs), events, t);
            before.push(
                Pass::Source {
                    id: sid,
                    additive: p.style.additive,
                    filter: filter_pass(c, clip.color_filter),
                },
            ) + draws.map_values(|d: GrainDraw| quad_pass(c, d, secs, tex.layers as int))
        } else {
            before
        }
    }
}

/// The scope of a clip's chain.
#[verifier::allow_in_spec]
pub fn clip_scope(track: u64, clip: u64) -> u64
    returns
        ((track << 20u64) | clip.wrapping_add(1)),
{
    (track << 20u64) | clip.wrapping_add(1)
}

/// The scope of a track's chain.
#[verifier::allow_in_spec]
pub fn track_scope(track: u64) -> u64
    returns
        (track.wrapping_add(1) << 32u64),
{
    track.wrapping_add(1) << 32u64
}

/// The scope of the master's chain.
pub const MASTER_SCOPE: u64 = 0xFFFF_0000_0000;

/// One clip drawn onto its track. A clip that shows nothing is left out, unless its
/// effects may.
pub open spec fn clip_passes<K: Fn(Op, Width, u64, u64) -> u64>(c: &Calc<K>, project: Project, p: PlanView, textures: Seq<Option<Texture>>, t: F64, floats: bool, passes: Seq<Pass>, fx: Map<u64, FxInst>) -> (Seq<Pass>, Map<u64, FxInst>, bool) {
    let clip = project.tracks@[p.track].clips@[p.clip];
    let active = parts_active(c, p.parts, t);
    if !active && clip.effects@.len() == 0 {
        (passes, fx, false)
    } else {
        let drawn = passes.push(Pass::Clear { to: Surface::Clip, opaque: false }) + if active {
            parts_passes(c, project, clip, p, textures, t, p.parts.len() as int)
        } else {
            seq![]
        };
        let done = chain_passes(
            c,
            Chain { passes: drawn, cur: Surface::Clip, fx },
            clip.effects@,
            clip_scope(p.track as u64, p.clip as u64),
            project.fps,
            floats,
            clip.effects@.len() as int,
        );
        (
            done.passes.push(
                Pass::Blend {
                    from: done.cur,
                    to: Surface::Track,
                    opacity: single(0x3f80_0000),
                    additive: p.style.additive.mul(c, single(0x3f00_0000)),
                },
            ),
            done.fx,
            true,
        )
    }
}

/// The clips of track `ti` among the first `n` of a plan.
pub open spec fn track_clips<K: Fn(Op, Width, u64, u64) -> u64>(c: &Calc<K>, project: Project, plan: Seq<PlanView>, ti: int, textures: Seq<Option<Texture>>, t: F64, floats: bool, passes: Seq<Pass>, fx: Map<u64, FxInst>, n: int) -> (Seq<Pass>, Map<u64, FxInst>, bool)
    decreases n,
{
    if n <= 0 {
        (passes, fx, project.tracks@[ti].effects@.len() > 0)
    } else {
        let (before, mid, any) = track_clips(
            c,
            project,
            plan,
            ti,
            textures,
            t,
            floats,
            passes,
            fx,
            n - 1,
        );
        if plan[n - 1].track == ti {
            let (after, last, shown) = clip_passes(
                c,
                project,
                plan[n - 1],
                textures,
                t,
                floats,
                before,
                mid,
            );
            (after, last, any || shown)
        } else {
            (before, mid, any)
        }
    }
}

/// Whether any clip of a plan is on a track.
pub open spec fn on_track(plan: Seq<PlanView>, ti: int) -> bool {
    exists|i: int| 0 <= i < plan.len() && (#[trigger] plan[i]).track == ti
}

/// One track drawn onto the master.
pub open spec fn track_passes<K: Fn(Op, Width, u64, u64) -> u64>(c: &Calc<K>, project: Project, plan: Seq<PlanView>, ti: int, textures: Seq<Option<Texture>>, t: F64, floats: bool, passes: Seq<Pass>, fx: Map<u64, FxInst>) -> (Seq<Pass>, Map<u64, FxInst>) {
    let track = project.tracks@[ti];
    if track.muted || !on_track(plan, ti) {
        (passes, fx)
    } else {
        let (drawn, mid, any) = track_clips(
            c,
            project,
            plan,
            ti,
            textures,
            t,
            floats,
            passes.push(Pass::Clear { to: Surface::Track, opaque: false }),
            fx,
            plan.len() as int,
        );
        if !any {
            (drawn, mid)
        } else {
            let done = chain_passes(
                c,
                Chain { passes: drawn, cur: Surface::Track, fx: mid },
                track.effects@,
                track_scope(ti as u64),
                project.fps,
                floats,
                track.effects@.len() as int,
            );
            (
                done.passes.push(
                    Pass::Blend {
                        from: done.cur,
                        to: Surface::Master,
                        opacity: level_opacity(
                            c,
                            track.level_on(c, beats_of_secs(c, project.bpm, t)),
                            track.level_to_opacity,
                        ),
                        additive: single(0),
                    },
                ),
                done.fx,
            )
        }
    }
}

/// The first `n` tracks, bottom up.
pub open spec fn tracks_passes<K: Fn(Op, Width, u64, u64) -> u64>(c: &Calc<K>, project: Project, plan: Seq<PlanView>, textures: Seq<Option<Texture>>, t: F64, floats: bool, fx: Map<u64, FxInst>, n: int) -> (Seq<Pass>, Map<u64, FxInst>)
    decreases n,
{
    if n <= 0 {
        (seq![Pass::Clear { to: Surface::Master, opaque: true }], fx)
    } else {
        let (passes, mid) = tracks_passes(c, project, plan, textures, t, floats, fx, n - 1);
        track_passes(c, project, plan, n - 1, textures, t, floats, passes, mid)
    }
}

/// All that one frame takes: the tracks, the master's chain, and showing it.
pub open spec fn scene_passes<K: Fn(Op, Width, u64, u64) -> u64>(c: &Calc<K>, project: Project, plan: Seq<PlanView>, textures: Seq<Option<Texture>>, t: F64, floats: bool, fx: Map<u64, FxInst>) -> (Seq<Pass>, Map<u64, FxInst>) {
    let (passes, mid) = tracks_passes(
        c,
        project,
        plan,
        textures,
        t,
        floats,
        fx,
        project.tracks@.len() as int,
    );
    let done = chain_passes(
        c,
        Chain { passes, cur: Surface::Master, fx: mid },
        project.master_effects@,
        MASTER_SCOPE,
        project.fps,
        floats,
        project.master_effects@.len() as int,
    );
    (done.passes.push(Pass::Present { from: done.cur }), done.fx)
}

impl Preview {
    fn draw_parts<K: Fn(Op, Width, u64, u64) -> u64>(&mut self, c: &Calc<K>, project: &Project, clip: &Clip, cp: &ClipPlan, textures: &Vec<Option<Texture>>, t: F64)
        requires
            c.sound(),
            old(self).wf(),
        ensures
            final(self).wf(),
            final(self).fx == old(self).fx,
            final(self).passes@ == old(self).passes@ + parts_passes(
                c,
                *project,
                *clip,
                cp@,
                textures@,
                t,
                cp.parts@.len() as int,
            ),
    {
        let ghost pv = parts_view(cp.parts@);
        let ghost first = self.passes@;
        let filter: FilterPass = to_filter_pass(c, &clip.color_filter);
        let mut i: usize = 0;
        while i < cp.parts.len()
            invariant
                c.sound(),
                self.wf(),
                self.fx == old(self).fx,
                pv == parts_view(cp.parts@),
                filter == filter_pass(c, clip.color_filter),
                i <= cp.parts@.len(),
                self.passes@ =~= first + parts_passes(
                    c,
                    *project,
                    *clip,
                    cp@,
                    textures@,
                    t,
                    i as int,
                ),
            decreases cp.parts.len() - i,
        {
            let sid: usize = cp.parts[i].0;
            assert(cp@.parts[i as int] == (sid, cp.parts@[i as int].1@));
            if sid < textures.len() {
                if let Some(tex) = &textures[sid] {
                    let secs: F64 = texture_secs(tex.duration);
                    let look: Look = look_at(
                        c,
                        cp.style,
                        clip.link,
                        clip.transform,
                        secs,
                        project.width,
                        project.height,
                    );
                    let draws: Vec<GrainDraw> = draws_with(c, &cp.parts[i].1, &look, t);
                    let ghost before = self.passes@;
                    self.passes.push(
                        Pass::Source { id: sid, additive: cp.style.additive, filter },
                    );
                    let ghost opened = self.passes@;
                    let ghost quads = draws@.map_values(
                        |d: GrainDraw| quad_pass(c, d, secs, tex.layers as int),
                    );
                    let mut j: usize = 0;
                    while j < draws.len()
                        invariant
                            c.sound(),
                            self.wf(),
                            self.fx == old(self).fx,
                            j <= draws@.len(),
                            quads == draws@.map_values(
                                |d: GrainDraw| quad_pass(c, d, secs, tex.layers as int),
                            ),
                            self.passes@ =~= opened + quads.take(j as int),
                        decreases draws.len() - j,
                    {
                        let d: GrainDraw = draws[j];
                        self.passes.push(
                            Pass::Quad {
                                layer: layer_at(c, d.src_time, secs, tex.layers as u64),
                                patch: d.patch,
                                alpha: d.alpha,
                                hue: d.hue_shift,
                                rect: d.dest,
                                rotation: d.rotation,
                            },
                        );
                        j += 1;
                    }
                    assert(quads.take(j as int) =~= quads);
                }
            }
            i += 1;
        }
    }

    fn draw_clip<K: Fn(Op, Width, u64, u64) -> u64>(&mut self, c: &Calc<K>, project: &Project, cp: &ClipPlan, textures: &Vec<Option<Texture>>, t: F64, floats: bool) -> (r: bool)
        requires
            c.sound(),
            old(self).wf(),
            cp.track < project.tracks@.len(),
            cp.clip_index < project.tracks@[cp.track as int].clips@.len(),
        ensures
            final(self).wf(),
            (final(self).passes@, final(self).fx@, r) == clip_passes(
                c,
                *project,
                cp@,
                textures@,
                t,
                floats,
                old(self).passes@,
                old(self).fx@,
            ),
    {
        let clip: &Clip = &project.tracks[cp.track].clips[cp.clip_index];
        let active: bool = is_active(c, &cp.parts, t);
        if !active && clip.effects.len() == 0 {
            return false;
        }
        self.passes.push(Pass::Clear { to: Surface::Clip, opaque: false });
        let ghost cleared = self.passes@;
        if active {
            self.draw_parts(c, project, clip, cp, textures, t);
        } else {
            assert(cleared + seq![] =~= cleared);
        }
        let last: Surface = self.apply_chain(
            c,
            &clip.effects,
            clip_scope(cp.track as u64, cp.clip_index as u64),
            Surface::Clip,
            project.fps,
            floats,
        );
        self.passes.push(
            Pass::Blend {
                from: last,
                to: Surface::Track,
                opacity: single(0x3f80_0000),
                additive: cp.style.additive.mul(c, single(0x3f00_0000)),
            },
        );
        true
    }

    fn draw_track<K: Fn(Op, Width, u64, u64) -> u64>(&mut self, c: &Calc<K>, project: &Project, plan: &Vec<ClipPlan>, ti: usize, textures: &Vec<Option<Texture>>, t: F64, floats: bool)
        requires
            c.sound(),
            old(self).wf(),
            project.wf(),
            ti < project.tracks@.len(),
            plan_fits(*project, plan_view(plan@)),
        ensures
            final(self).wf(),
            (final(self).passes@, final(self).fx@) == track_passes(
                c,
                *project,
                plan_view(plan@),
                ti as int,
                textures@,
                t,
                floats,
                old(self).passes@,
                old(self).fx@,
            ),
    {
        let ghost pv = plan_view(plan@);
        let track: &Track = &project.tracks[ti];
        assert(track.wf());
        if track.muted {
            return;
        }
        let mut found: bool = false;
        let mut k: usize = 0;
        while k < plan.len()
            invariant
                pv == plan_view(plan@),
                k <= plan@.len(),
                found ==> on_track(pv, ti as int),
                !found ==> forall|i: int| 0 <= i < k ==> (#[trigger] pv[i]).track != ti,
            decreases plan.len() - k,
        {
            assert(pv[k as int] == plan@[k as int]@);
            if plan[k].track == ti {
                found = true;
            }
            k += 1;
        }
        if !found {
            return;
        }
        self.passes.push(Pass::Clear { to: Surface::Track, opaque: false });
        let ghost first = self.passes@;
        let ghost fx0 = self.fx@;
        let mut any: bool = track.effects.len() > 0;
        let mut i: usize = 0;
        while i < plan.len()
            invariant
                c.sound(),
                self.wf(),
                pv == plan_view(plan@),
                plan_fits(*project, pv),
                ti < project.tracks@.len(),
                i <= plan@.len(),
                (self.passes@, self.fx@, any) == track_clips(
                    c,
                    *project,
                    pv,
                    ti as int,
                    textures@,
                    t,
                    floats,
                    first,
                    fx0,
                    i as int,
                ),
            decreases plan.len() - i,
        {
            assert(pv[i as int] == plan@[i as int]@);
            if plan[i].track == ti {
                let shown: bool = self.draw_clip(c, project, &plan[i], textures, t, floats);
                any = any || shown;
            }
            i += 1;
        }
        if !any {
            return;
        }
        let last: Surface = self.apply_chain(
            c,
            &track.effects,
            track_scope(ti as u64),
            Surface::Track,
            project.fps,
            floats,
        );
        let beat: F64 = project.secs_to_beats(c, t);
        let opacity: F32 = track.opacity_at(c, beat);
        self.passes.push(
            Pass::Blend { from: last, to: Surface::Master, opacity, additive: single(0) },
        );
    }

    /// Plan the passes of one frame of a scene: the project, what is scheduled, which sources
    /// are on the GPU, the time, and whether there are surfaces that hold coefficients.
    pub fn paint<K: Fn(Op, Width, u64, u64) -> u64>(&mut self, c: &Calc<K>, project: &Project, plan: &Vec<ClipPlan>, textures: &Vec<Option<Texture>>, t: F64, floats: bool)
        requires
            c.sound(),
            old(self).wf(),
            project.wf(),
            plan_fits(*project, plan_view(plan@)),
        ensures
            final(self).wf(),
            (final(self).passes@, final(self).fx@) == scene_passes(
                c,
                *project,
                plan_view(plan@),
                textures@,
                t,
                floats,
                old(self).fx@,
            ),
    {
        let ghost pv = plan_view(plan@);
        self.passes = Vec::new();
        self.passes.push(Pass::Clear { to: Surface::Master, opaque: true });
        assert(self.passes@ =~= seq![Pass::Clear { to: Surface::Master, opaque: true }]);
        let mut ti: usize = 0;
        while ti < project.tracks.len()
            invariant
                c.sound(),
                self.wf(),
                project.wf(),
                pv == plan_view(plan@),
                plan_fits(*project, pv),
                ti <= project.tracks@.len(),
                (self.passes@, self.fx@) == tracks_passes(
                    c,
                    *project,
                    pv,
                    textures@,
                    t,
                    floats,
                    old(self).fx@,
                    ti as int,
                ),
            decreases project.tracks.len() - ti,
        {
            self.draw_track(c, project, plan, ti, textures, t, floats);
            ti += 1;
        }
        let last: Surface = self.apply_chain(
            c,
            &project.master_effects,
            MASTER_SCOPE,
            Surface::Master,
            project.fps,
            floats,
        );
        self.passes.push(Pass::Present { from: last });
    }
}

// --------------------------------------------------------------------- laws

/// A history after `n` frames of it.
pub open spec fn history_after(frames: int, n: nat) -> FxInst
    decreases n,
{
    if n == 0 {
        FxInst::fresh()
    } else {
        history_after(frames, (n - 1) as nat).recorded(frames)
    }
}

/// A history gives back the frame from as many frames ago as it is long: nothing until it
/// has filled, and from then on the slot that was recorded that many frames before.
pub proof fn law_history_looks_back(frames: int, n: nat)
    requires
        0 < frames <= MAX_HISTORY,
    ensures
        n < frames ==> history_after(frames, n).tail(frames) is None,
        n >= frames ==> history_after(frames, n).tail(frames) == Some(
            history_after(frames, (n - frames) as nat).next_slot(frames),
        ),
{
    lemma_history(frames, n);
    if n >= frames {
        lemma_history(frames, (n - frames) as nat);
        let m = (n - frames) as int;
        assert((m + frames) % frames == m % frames) by (nonlinear_arith)
            requires
                frames > 0,
        ;
        assert((m % frames) % frames == m % frames) by (nonlinear_arith)
            requires
                frames > 0,
        ;
    }
}

proof fn lemma_history(frames: int, n: nat)
    requires
        0 < frames <= MAX_HISTORY,
    ensures
        ({
            let h = history_after(frames, n);
            &&& h.head == (n as int) % frames
            &&& h.slots == if n == 0 {
                0
            } else {
                frames
            }
            &&& h.filled == if n < frames + 1 {
                n as int
            } else {
                frames + 1
            }
        }),
    decreases n,
{
    if n > 0 {
        lemma_history(frames, (n - 1) as nat);
        let m = n - 1;
        assert((m % frames) % frames == m % frames && ((m % frames) + 1) % frames == (m + 1)
            % frames) by (nonlinear_arith)
            requires
                frames > 0,
                m >= 0,
        ;
    }
}

/// The effects of one chain remember apart from each other.
pub proof fn law_effects_keep_their_own_state(scope: u64, a: u64, b: u64)
    requires
        a < 0x100_0000 - 1,
        b < 0x100_0000 - 1,
        a != b,
    ensures
        effect_key(scope, a) != effect_key(scope, b),
{
    let x = (a + 1) as u64;
    let y = (b + 1) as u64;
    assert(scope ^ (x << 40u64) != scope ^ (y << 40u64)) by (bit_vector)
        requires
            x < 0x100_0000,
            y < 0x100_0000,
            x != y,
    ;
}

/// A chain never draws on the surface that it reads from.
pub proof fn law_chains_draw_elsewhere(s: Surface)
    ensures
        other(s) != s,
{
}

/// A scene starts from black and ends with being shown.
pub proof fn law_scenes_start_and_end<K: Fn(Op, Width, u64, u64) -> u64>(c: &Calc<K>, project: Project, plan: Seq<PlanView>, textures: Seq<Option<Texture>>, t: F64, floats: bool, fx: Map<u64, FxInst>)
    ensures
        scene_passes(c, project, plan, textures, t, floats, fx).0.len() > 0,
        scene_passes(c, project, plan, textures, t, floats, fx).0.last() is Present,
{
}

/// A muted track draws nothing, and its effects remember what they remembered.
pub proof fn law_muted_tracks_draw_nothing<K: Fn(Op, Width, u64, u64) -> u64>(c: &Calc<K>, project: Project, plan: Seq<PlanView>, ti: int, textures: Seq<Option<Texture>>, t: F64, floats: bool, passes: Seq<Pass>, fx: Map<u64, FxInst>)
    requires
        0 <= ti < project.tracks@.len(),
        project.tracks@[ti].muted,
    ensures
        track_passes(c, project, plan, ti, textures, t, floats, passes, fx) == (passes, fx),
{
}

} // verus!
