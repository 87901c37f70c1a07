//! Video side: frames, HSV color filtering (the visual analog of the audio
//! frequency filters), and the visual grain compositor that consumes the same
//! grain events as the audio renderer.
//!
//! Correspondence between an audio grain and its visual grain:
//! * onset & duration — the patch appears and dies with the sound
//! * envelope — patch opacity follows the audio amplitude envelope
//! * pitch_ratio — the patch's video plays at the same rate, and its hue rotates
//! * pan — horizontal placement on the canvas
//! * gain — opacity weight
//! * source_pos — the patch is sampled from the video at the same moment the
//!   audio grain reads from the waveform
//! * reverse — the patch's video runs backwards too
use crate::calc::{Calc, Op, Width};
use crate::dsp::grain_env_skewed;
use crate::grain::{grain_end, GrainEvent};
use crate::music::ratio_to_semitones;
use crate::num::{double, law_unit_is_exact, single, F32, F64};
use crate::text;
use crate::timeline::ClipTransform;
use vstd::arithmetic::div_mod::lemma_fundamental_div_mod_converse;
use vstd::prelude::*;

verus! {

/// One pixel.
#[derive(Clone, Copy, Debug, PartialEq, Eq, Structural)]
pub struct Rgba {
    pub r: u8,
    pub g: u8,
    pub b: u8,
    pub a: u8,
}

impl Rgba {
    /// The pixel of four bytes.
    pub open spec fn of(s: Seq<u8>) -> Rgba {
        Rgba { r: s[0], g: s[1], b: s[2], a: s[3] }
    }
}

/// What a frame shows: its pixels in rows from the top left.
pub struct Image {
    pub width: int,
    pub height: int,
    pub px: Seq<Rgba>,
}

impl Image {
    /// The pixel at column `x` of row `y`.
    pub open spec fn pixel(self, x: int, y: int) -> Rgba {
        self.px[y * self.width + x]
    }
}

/// RGBA8 frame.
#[derive(Debug, PartialEq, Eq)]
pub struct Frame {
    pub width: u32,
    pub height: u32,
    pub data: Vec<u8>,
}

/// The pixel at index `i` of the bytes.
pub open spec fn quad(data: Seq<u8>, i: int) -> Rgba {
    Rgba { r: data[4 * i], g: data[4 * i + 1], b: data[4 * i + 2], a: data[4 * i + 3] }
}

impl View for Frame {
    type V = Image;

    open spec fn view(&self) -> Image {
        Image {
            width: self.width as int,
            height: self.height as int,
            px: Seq::new((self.width * self.height) as nat, |i: int| quad(self.data@, i)),
        }
    }
}

impl Clone for Frame {
    fn clone(&self) -> (r: Frame)
        ensures
            r.width == self.width,
            r.height == self.height,
            r.data@ == self.data@,
    {
        Frame { width: self.width, height: self.height, data: self.data.clone() }
    }
}

/// An image of one colour.
pub open spec fn plain(width: int, height: int, px: Rgba) -> Image {
    Image { width, height, px: Seq::new((width * height) as nat, |i: int| px) }
}

/// What a pixel adds to a frame's luma.
#[verifier::allow_in_spec]
pub fn luma<K: Fn(Op, Width, u64, u64) -> u64>(c: &Calc<K>, p: Rgba) -> F64
    requires
        c.sound(),
    returns
        (double(0x3fcb_367a_0f90_96bc).mul(c, F64::of_count(c, p.r as u64)).add(
            c,
            double(0x3fe6_e2eb_1c43_2ca5).mul(c, F64::of_count(c, p.g as u64)),
        ).add(c, double(0x3fb2_7bb2_fec5_6d5d).mul(c, F64::of_count(c, p.b as u64)))),
{
    double(0x3fcb_367a_0f90_96bc).mul(c, F64::of_count(c, p.r as u64)).add(
        c,
        double(0x3fe6_e2eb_1c43_2ca5).mul(c, F64::of_count(c, p.g as u64)),
    ).add(c, double(0x3fb2_7bb2_fec5_6d5d).mul(c, F64::of_count(c, p.b as u64)))
}

/// The luma of the first `n` pixels, summed in order.
pub open spec fn luma_sum<K: Fn(Op, Width, u64, u64) -> u64>(c: &Calc<K>, px: Seq<Rgba>, n: int) -> F64
    decreases n,
{
    if n <= 0 {
        double(0)
    } else {
        luma_sum(c, px, n - 1).add(c, luma(c, px[n - 1]))
    }
}

impl Frame {
    /// Four bytes for each pixel, all of them within 32-bit indices.
    pub open spec fn wf(self) -> bool {
        &&& self.data@.len() == self.width * self.height * 4
        &&& self.width * self.height * 4 <= u32::MAX
    }

    /// One colour all over.
    pub fn filled(width: u32, height: u32, px: Rgba) -> (r: Frame)
        requires
            width * height * 4 <= u32::MAX,
        ensures
            r.wf(),
            r@ == plain(width as int, height as int, px),
            r.width == width,
            r.height == height,
    {
        assert(width * height <= u32::MAX) by (nonlinear_arith)
            requires
                width * height * 4 <= u32::MAX,
        ;
        let n: u32 = width * height;
        let mut data: Vec<u8> = Vec::new();
        let mut i: u32 = 0;
        while i < n
            invariant
                i <= n,
                n == width * height,
                data@.len() == 4 * i,
                forall|j: int| 0 <= j < i ==> #[trigger] quad(data@, j) == px,
            decreases n - i,
        {
            let ghost before = data@;
            data.push(px.r);
            data.push(px.g);
            data.push(px.b);
            data.push(px.a);
            assert forall|j: int| 0 <= j < i + 1 implies #[trigger] quad(data@, j) == px by {
                if j < i {
                    assert(quad(before, j) == px);
                }
            }
            i += 1;
        }
        let f: Frame = Frame { width, height, data };
        assert(f@.px =~= plain(width as int, height as int, px).px);
        f
    }

    /// Opaque black.
    pub fn black(width: u32, height: u32) -> (r: Frame)
        requires
            width * height * 4 <= u32::MAX,
        ensures
            r.wf(),
            r@ == plain(width as int, height as int, (Rgba { r: 0, g: 0, b: 0, a: 255 })),
            r.width == width,
            r.height == height,
    {
        Frame::filled(width, height, Rgba { r: 0, g: 0, b: 0, a: 255 })
    }

    /// Fully transparent frame — the starting point for a clip's layer.
    pub fn transparent(width: u32, height: u32) -> (r: Frame)
        requires
            width * height * 4 <= u32::MAX,
        ensures
            r.wf(),
            r@ == plain(width as int, height as int, (Rgba { r: 0, g: 0, b: 0, a: 0 })),
            r.width == width,
            r.height == height,
    {
        Frame::filled(width, height, Rgba { r: 0, g: 0, b: 0, a: 0 })
    }

    /// How many pixels there are.
    #[inline]
    pub fn area(&self) -> (r: usize)
        requires
            self.wf(),
        ensures
            r == self@.px.len(),
            r == self.width * self.height,
    {
        self.data.len() / 4
    }

    /// The pixel at index `i`.
    #[inline]
    pub fn load(&self, i: usize) -> (r: Rgba)
        requires
            self.wf(),
            i < self@.px.len(),
        ensures
            r == self@.px[i as int],
    {
        Rgba {
            r: self.data[4 * i],
            g: self.data[4 * i + 1],
            b: self.data[4 * i + 2],
            a: self.data[4 * i + 3],
        }
    }

    /// Replace the pixel at index `i`.
    #[inline]
    pub fn store(&mut self, i: usize, px: Rgba)
        requires
            old(self).wf(),
            i < old(self)@.px.len(),
        ensures
            final(self).wf(),
            final(self).width == old(self).width,
            final(self).height == old(self).height,
            final(self)@.px == old(self)@.px.update(i as int, px),
    {
        let ghost before = *self;
        self.data[4 * i] = px.r;
        self.data[4 * i + 1] = px.g;
        self.data[4 * i + 2] = px.b;
        self.data[4 * i + 3] = px.a;
        assert(self@.px =~= before@.px.update(i as int, px));
    }

    /// The index of column `x` of row `y`.
    #[inline]
    pub fn index(&self, x: u32, y: u32) -> (r: usize)
        requires
            self.wf(),
            x < self.width,
            y < self.height,
        ensures
            r == y * self.width + x,
            r < self@.px.len(),
    {
        proof {
            lemma_index(self.width as int, self.height as int, x as int, y as int);
        }
        (y * self.width + x) as usize
    }

    pub fn get(&self, x: u32, y: u32) -> (r: [u8; 4])
        requires
            self.wf(),
            x < self.width,
            y < self.height,
        ensures
            Rgba::of(r@) == self@.pixel(x as int, y as int),
    {
        let i: usize = self.index(x, y);
        [self.data[4 * i], self.data[4 * i + 1], self.data[4 * i + 2], self.data[4 * i + 3]]
    }

    pub fn put(&mut self, x: u32, y: u32, px: [u8; 4])
        requires
            old(self).wf(),
            x < old(self).width,
            y < old(self).height,
        ensures
            final(self).wf(),
            final(self).width == old(self).width,
            final(self).height == old(self).height,
            final(self)@.px == old(self)@.px.update(y * old(self).width + x, Rgba::of(px@)),
    {
        let i: usize = self.index(x, y);
        self.store(i, Rgba { r: px[0], g: px[1], b: px[2], a: px[3] });
    }

    pub fn mean_luma<K: Fn(Op, Width, u64, u64) -> u64>(&self, c: &Calc<K>) -> (r: F32)
        requires
            c.sound(),
            self.wf(),
        ensures
            r == luma_sum(c, self@.px, self@.px.len() as int).div(
                c,
                F64::of_count(c, self.width as u64).mul(c, F64::of_count(c, self.height as u64)),
            ).to_f32(c),
    {
        let n: usize = self.area();
        let mut sum: F64 = double(0);
        let mut i: usize = 0;
        while i < n
            invariant
                c.sound(),
                self.wf(),
                i <= n,
                n == self@.px.len(),
                sum == luma_sum(c, self@.px, i as int),
            decreases n - i,
        {
            sum = sum.add(c, luma(c, self.load(i)));
            i += 1;
        }
        sum.div(
            c,
            F64::of_count(c, self.width as u64).mul(c, F64::of_count(c, self.height as u64)),
        ).to_f32(c)
    }
}

/// A pixel's index lies within the frame.
pub proof fn lemma_index(w: int, h: int, x: int, y: int)
    requires
        0 <= x < w,
        0 <= y < h,
    ensures
        0 <= y * w + x < w * h,
        (y * w + x) / w == y,
        (y * w + x) % w == x,
{
    assert(0 <= y * w + x < w * h) by (nonlinear_arith)
        requires
            0 <= x < w,
            0 <= y < h,
    ;
    assert((y * w + x) / w == y && (y * w + x) % w == x) by (nonlinear_arith)
        requires
            0 <= x < w,
            0 <= y,
    ;
}

/// The column and row of a pixel index.
pub proof fn lemma_place(w: int, h: int, j: int)
    requires
        0 <= w,
        0 <= h,
        0 <= j < w * h,
    ensures
        0 <= j % w < w,
        0 <= j / w < h,
        (j / w) * w + j % w == j,
{
    assert(w > 0) by (nonlinear_arith)
        requires
            0 <= w,
            0 <= j < w * h,
    ;
    assert(0 <= j % w < w && 0 <= j / w < h && (j / w) * w + j % w == j) by (nonlinear_arith)
        requires
            w > 0,
            0 <= j < w * h,
    ;
}

/// What was put at a place is read there, and every other place is as before.
pub proof fn law_get_after_put(before: Image, x: int, y: int, px: Rgba, x2: int, y2: int)
    requires
        before.px.len() == before.width * before.height,
        0 <= x < before.width,
        0 <= y < before.height,
        0 <= x2 < before.width,
        0 <= y2 < before.height,
    ensures
        ({
            let after = Image { px: before.px.update(y * before.width + x, px), ..before };
            after.pixel(x2, y2) == if x == x2 && y == y2 {
                px
            } else {
                before.pixel(x2, y2)
            }
        }),
{
    lemma_index(before.width, before.height, x, y);
    lemma_index(before.width, before.height, x2, y2);
}

/// A decoded (or procedural) video clip held in memory.
#[derive(Debug)]
pub struct VideoClip {
    pub frames: Vec<Frame>,
    pub fps: F32,
}

impl Default for VideoClip {
    fn default() -> (r: VideoClip)
        ensures
            r.frames@ == Seq::<Frame>::empty(),
            r.fps == single(0),
    {
        VideoClip { frames: Vec::new(), fps: single(0) }
    }
}

impl Clone for VideoClip {
    fn clone(&self) -> (r: VideoClip)
        ensures
            r.fps == self.fps,
            r.frames@.len() == self.frames@.len(),
            forall|i: int|
                0 <= i < self.frames@.len() ==> (#[trigger] r.frames@[i]).width
                    == self.frames@[i].width && r.frames@[i].height == self.frames@[i].height
                    && r.frames@[i].data@ == self.frames@[i].data@,
    {
        VideoClip { frames: self.frames.clone(), fps: self.fps }
    }
}

proof fn lemma_negative_modulo(a: int, n: int)
    requires
        0 < a,
        0 < n,
    ensures
        (-a) % n == if a % n == 0 {
            0
        } else {
            n - a % n
        },
{
    let q = a / n;
    let r = a % n;
    assert(a == n * q + r) by (nonlinear_arith)
        requires
            n > 0,
            q == a / n,
            r == a % n,
    ;
    if r == 0 {
        assert(-a == (-q) * n + 0) by (nonlinear_arith)
            requires
                a == n * q,
        ;
        lemma_fundamental_div_mod_converse(-a, n, -q, 0);
    } else {
        assert(-a == (-q - 1) * n + (n - r)) by (nonlinear_arith)
            requires
                a == n * q + r,
        ;
        lemma_fundamental_div_mod_converse(-a, n, -q - 1, n - r);
    }
}

/// `idx` modulo `n`, never negative.
#[inline]
pub fn wrap_index(idx: i64, n: usize) -> (r: usize)
    requires
        n > 0,
    ensures
        r == idx as int % n as int,
        r < n,
{
    let m: u64 = n as u64;
    if idx >= 0 {
        (idx as u64 % m) as usize
    } else {
        let a: u64 = (-(idx as i128)) as u64;
        proof {
            lemma_negative_modulo(a as int, n as int);
        }
        let k: u64 = a % m;
        if k == 0 {
            0
        } else {
            (m - k) as usize
        }
    }
}

/// The hue of the test clip at time `t`, degrees.
#[verifier::allow_in_spec]
pub fn pattern_hue<K: Fn(Op, Width, u64, u64) -> u64>(c: &Calc<K>, t: F32) -> F32
    requires
        c.sound(),
    returns
        (t.mul(c, single(0x4220_0000)).rem(c, single(0x43b4_0000))),
{
    t.mul(c, single(0x4220_0000)).rem(c, single(0x43b4_0000))
}

/// The column of the test clip's bar at time `t`.
#[verifier::allow_in_spec]
pub fn pattern_bar<K: Fn(Op, Width, u64, u64) -> u64>(c: &Calc<K>, t: F32, width: u32) -> u32
    requires
        c.sound(),
    returns
        (t.mul(c, single(0x3e80_0000)).fract(c).mul(c, F32::of_count(c, width as u64)).to_u32(c)),
{
    t.mul(c, single(0x3e80_0000)).fract(c).mul(c, F32::of_count(c, width as u64)).to_u32(c)
}

/// A channel of the test clip brightened towards the bar `d` columns away.
#[verifier::allow_in_spec]
pub fn pattern_boost<K: Fn(Op, Width, u64, u64) -> u64>(c: &Calc<K>, v: u8, d: F32, reach: F32) -> u8
    requires
        c.sound(),
    returns
        (if d.lt(reach) {
            F32::of_count(c, v as u64).add(
                c,
                single(0x437f_0000).sub(c, F32::of_count(c, v as u64)).mul(c, single(0x3f80_0000).sub(c, d.div(c, reach))),
            ).to_u8(c)
        } else {
            v
        }),
{
    if d.lt(reach) {
        F32::of_count(c, v as u64).add(
            c,
            single(0x437f_0000).sub(c, F32::of_count(c, v as u64)).mul(c, single(0x3f80_0000).sub(c, d.div(c, reach))),
        ).to_u8(c)
    } else {
        v
    }
}

/// A channel of the test clip darkened towards the top of the frame.
#[verifier::allow_in_spec]
pub fn pattern_fade<K: Fn(Op, Width, u64, u64) -> u64>(c: &Calc<K>, v: u8, y: u32, height: u32) -> u8
    requires
        c.sound(),
    returns
        (F32::of_count(c, v as u64).mul(
            c,
            single(0x3f19_999a).add(
                c,
                single(0x3ecc_cccd).mul(c, F32::of_count(c, y as u64).div(c, F32::of_count(c, height as u64))),
            ),
        ).to_u8(c)),
{
    F32::of_count(c, v as u64).mul(
        c,
        single(0x3f19_999a).add(
            c,
            single(0x3ecc_cccd).mul(c, F32::of_count(c, y as u64).div(c, F32::of_count(c, height as u64))),
        ),
    ).to_u8(c)
}

/// How far apart two columns are.
#[verifier::allow_in_spec]
pub fn column_gap<K: Fn(Op, Width, u64, u64) -> u64>(c: &Calc<K>, x: u32, bar: u32) -> F32
    requires
        c.sound(),
    returns
        (F32::of_count(c, if x < bar { (bar - x) as u64 } else { (x - bar) as u64 })),
{
    F32::of_count(c, if x < bar { (bar - x) as u64 } else { (x - bar) as u64 })
}

/// The pixel at column `x` of row `y` of the test clip at time `t`.
pub open spec fn pattern_pixel<K: Fn(Op, Width, u64, u64) -> u64>(c: &Calc<K>, t: F32, x: u32, y: u32, width: u32, height: u32) -> Rgba {
    let (r, g, b) = rgb_of(c, pattern_hue(c, t), single(0x3f4c_cccd), single(0x3f0c_cccd));
    let d = column_gap(c, x, pattern_bar(c, t, width));
    let reach = F32::of_count(c, width as u64).mul(c, single(0x3da3_d70a));
    Rgba {
        r: pattern_fade(c, pattern_boost(c, r, d, reach), y, height),
        g: pattern_fade(c, pattern_boost(c, g, d, reach), y, height),
        b: pattern_fade(c, pattern_boost(c, b, d, reach), y, height),
        a: 255,
    }
}

/// Frame `f` of the test clip.
pub open spec fn pattern_frame<K: Fn(Op, Width, u64, u64) -> u64>(c: &Calc<K>, f: u64, width: u32, height: u32, fps: F32) -> Image {
    Image {
        width: width as int,
        height: height as int,
        px: Seq::new(
            (width * height) as nat,
            |j: int| pattern_pixel(
                c,
                F32::of_count(c, f).div(c, fps),
                (j % width as int) as u32,
                (j / width as int) as u32,
                width,
                height,
            ),
        ),
    }
}

fn paint_pattern<K: Fn(Op, Width, u64, u64) -> u64>(c: &Calc<K>, f: u64, width: u32, height: u32, fps: F32) -> (r: Frame)
    requires
        c.sound(),
        width * height * 4 <= u32::MAX,
    ensures
        r.wf(),
        r.width == width,
        r.height == height,
        r@ == pattern_frame(c, f, width, height, fps),
{
    let t: F32 = F32::of_count(c, f).div(c, fps);
    let (r, g, b): (u8, u8, u8) = hsv_to_rgb(c, pattern_hue(c, t), single(0x3f4c_cccd), single(0x3f0c_cccd));
    let bar: u32 = pattern_bar(c, t, width);
    let reach: F32 = F32::of_count(c, width as u64).mul(c, single(0x3da3_d70a));
    let mut frame: Frame = Frame::black(width, height);
    let n: usize = frame.area();
    let mut i: usize = 0;
    while i < n
        invariant
            c.sound(),
            i <= n,
            n == width * height,
            frame.wf(),
            frame.width == width,
            frame.height == height,
            t == F32::of_count(c, f).div(c, fps),
            (r, g, b) == rgb_of(c, pattern_hue(c, t), single(0x3f4c_cccd), single(0x3f0c_cccd)),
            bar == pattern_bar(c, t, width),
            reach == F32::of_count(c, width as u64).mul(c, single(0x3da3_d70a)),
            forall|j: int| 0 <= j < i ==> frame@.px[j] == pattern_frame(c, f, width, height, fps).px[j],
        decreases n - i,
    {
        proof {
            lemma_place(width as int, height as int, i as int);
        }
        let x: u32 = (i % width as usize) as u32;
        let y: u32 = (i / width as usize) as u32;
        let d: F32 = column_gap(c, x, bar);
        let px: Rgba = Rgba {
            r: pattern_fade(c, pattern_boost(c, r, d, reach), y, height),
            g: pattern_fade(c, pattern_boost(c, g, d, reach), y, height),
            b: pattern_fade(c, pattern_boost(c, b, d, reach), y, height),
            a: 255,
        };
        frame.store(i, px);
        i += 1;
    }
    assert(frame@.px =~= pattern_frame(c, f, width, height, fps).px);
    frame
}

impl VideoClip {
    /// Every frame is whole and not empty.
    pub open spec fn wf(self) -> bool {
        forall|i: int|
            0 <= i < self.frames@.len() ==> (#[trigger] self.frames@[i]).wf()
                && self.frames@[i].width > 0 && self.frames@[i].height > 0
    }

    /// Whether there is anything to show.
    pub open spec fn plays(self) -> bool {
        self.frames@.len() > 0 && !self.fps.le(single(0))
    }

    /// How long the clip lasts, seconds.
    pub open spec fn lasts<K: Fn(Op, Width, u64, u64) -> u64>(self, c: &Calc<K>) -> F64 {
        if self.fps.le(single(0)) {
            double(0)
        } else {
            F64::of_count(c, self.frames@.len() as u64).div(c, self.fps.to_f64(c))
        }
    }

    pub fn duration<K: Fn(Op, Width, u64, u64) -> u64>(&self, c: &Calc<K>) -> (r: F64)
        requires
            c.sound(),
        ensures
            r == self.lasts(c),
    {
        if self.fps.le(single(0)) {
            double(0)
        } else {
            F64::of_count(c, self.frames.len() as u64).div(c, self.fps.to_f64(c))
        }
    }

    /// The number of the frame at time `t`: before the first and after the last
    /// one it goes round.
    pub open spec fn shown<K: Fn(Op, Width, u64, u64) -> u64>(self, c: &Calc<K>, t: F64) -> int {
        t.mul(c, self.fps.to_f64(c)).floor(c).to_int(c) as int % self.frames@.len() as int
    }

    pub fn frame_at<K: Fn(Op, Width, u64, u64) -> u64>(&self, c: &Calc<K>, t: F64) -> (r: Option<&Frame>)
        requires
            c.sound(),
        ensures
            r is Some <==> self.plays(),
            r is Some ==> 0 <= self.shown(c, t) < self.frames@.len() && *r->0
                == self.frames@[self.shown(c, t)],
    {
        if self.frames.len() == 0 || self.fps.le(single(0)) {
            return None;
        }
        let idx: i64 = t.mul(c, self.fps.to_f64(c)).floor(c).to_int(c);
        Some(&self.frames[wrap_index(idx, self.frames.len())])
    }

    /// Procedural test clip: hue sweeps over time, a bright moving bar gives
    /// spatial structure. Deterministic; used by tests and the demo project.
    pub fn test_pattern<K: Fn(Op, Width, u64, u64) -> u64>(c: &Calc<K>, width: u32, height: u32, fps: F32, secs: F32) -> (r: VideoClip)
        requires
            c.sound(),
            width * height * 4 <= u32::MAX,
        ensures
            r.fps == fps,
            r.frames@.len() == fps.mul(c, secs).to_size(c),
            forall|f: int|
                0 <= f < r.frames@.len() ==> (#[trigger] r.frames@[f]).wf() && r.frames@[f].width
                    == width && r.frames@[f].height == height && r.frames@[f]@ == pattern_frame(
                    c,
                    f as u64,
                    width,
                    height,
                    fps,
                ),
    {
        let n: usize = fps.mul(c, secs).to_size(c);
        let mut frames: Vec<Frame> = Vec::new();
        let mut f: usize = 0;
        while f < n
            invariant
                c.sound(),
                f <= n,
                width * height * 4 <= u32::MAX,
                frames@.len() == f,
                forall|k: int|
                    0 <= k < f ==> (#[trigger] frames@[k]).wf() && frames@[k].width == width
                        && frames@[k].height == height && frames@[k]@ == pattern_frame(
                        c,
                        k as u64,
                        width,
                        height,
                        fps,
                    ),
            decreases n - f,
        {
            let frame: Frame = paint_pattern(c, f as u64, width, height, fps);
            frames.push(frame);
            f += 1;
        }
        VideoClip { frames, fps }
    }
}

/// Which channel leads a colour's hue.
#[derive(Clone, Copy, Debug, PartialEq, Eq, Structural)]
pub enum HueSector {
    /// No hue: all channels are equal.
    Gray,
    Red,
    Green,
    Blue,
}

/// A channel as a number of 0..=1.
#[verifier::allow_in_spec]
pub fn channel<K: Fn(Op, Width, u64, u64) -> u64>(c: &Calc<K>, v: u8) -> F32
    requires
        c.sound(),
    returns
        (F32::of_count(c, v as u64).div(c, single(0x437f_0000))),
{
    F32::of_count(c, v as u64).div(c, single(0x437f_0000))
}

/// The sector of a colour's hue, from its channels, their maximum and their spread.
#[verifier::allow_in_spec]
pub fn hue_sector(max_r: F32, max_g: F32, delta: F32) -> HueSector
    returns
        (if delta.lt(single(0x3586_37bd)) {
            HueSector::Gray
        } else if max_r.abs().lt(single(0x3586_37bd)) {
            HueSector::Red
        } else if max_g.abs().lt(single(0x3586_37bd)) {
            HueSector::Green
        } else {
            HueSector::Blue
        }),
{
    if delta.lt(single(0x3586_37bd)) {
        HueSector::Gray
    } else if max_r.abs().lt(single(0x3586_37bd)) {
        HueSector::Red
    } else if max_g.abs().lt(single(0x3586_37bd)) {
        HueSector::Green
    } else {
        HueSector::Blue
    }
}

/// Hue (0..360), saturation and value (0..1) of a colour.
pub open spec fn hsv_of<K: Fn(Op, Width, u64, u64) -> u64>(c: &Calc<K>, r: u8, g: u8, b: u8) -> (F32, F32, F32) {
    let (rf, gf, bf) = (channel(c, r), channel(c, g), channel(c, b));
    let max = rf.max(gf).max(bf);
    let min = rf.min(gf).min(bf);
    let delta = max.sub(c, min);
    let h = match hue_sector(max.sub(c, rf), max.sub(c, gf), delta) {
        HueSector::Gray => single(0),
        HueSector::Red => single(0x4270_0000).mul(c, gf.sub(c, bf).div(c, delta).rem_euclid(c, single(0x40c0_0000))),
        HueSector::Green => single(0x4270_0000).mul(c, bf.sub(c, rf).div(c, delta).add(c, single(0x4000_0000))),
        HueSector::Blue => single(0x4270_0000).mul(c, rf.sub(c, gf).div(c, delta).add(c, single(0x4080_0000))),
    };
    let s = if max.le(single(0)) {
        single(0)
    } else {
        delta.div(c, max)
    };
    (h.rem_euclid(c, single(0x43b4_0000)), s, max)
}

/// RGB (0..255) -> HSV (h in 0..360, s/v in 0..1).
pub fn rgb_to_hsv<K: Fn(Op, Width, u64, u64) -> u64>(c: &Calc<K>, r: u8, g: u8, b: u8) -> (o: (F32, F32, F32))
    requires
        c.sound(),
    ensures
        o == hsv_of(c, r, g, b),
{
    let rf: F32 = channel(c, r);
    let gf: F32 = channel(c, g);
    let bf: F32 = channel(c, b);
    let max: F32 = rf.max(gf).max(bf);
    let min: F32 = rf.min(gf).min(bf);
    let delta: F32 = max.sub(c, min);
    let h: F32 = match hue_sector(max.sub(c, rf), max.sub(c, gf), delta) {
        HueSector::Gray => single(0),
        HueSector::Red => single(0x4270_0000).mul(c, gf.sub(c, bf).div(c, delta).rem_euclid(c, single(0x40c0_0000))),
        HueSector::Green => single(0x4270_0000).mul(c, bf.sub(c, rf).div(c, delta).add(c, single(0x4000_0000))),
        HueSector::Blue => single(0x4270_0000).mul(c, rf.sub(c, gf).div(c, delta).add(c, single(0x4080_0000))),
    };
    let s: F32 = if max.le(single(0)) {
        single(0)
    } else {
        delta.div(c, max)
    };
    (h.rem_euclid(c, single(0x43b4_0000)), s, max)
}

/// A channel of 0..=1 as a byte.
#[verifier::allow_in_spec]
pub fn channel_byte<K: Fn(Op, Width, u64, u64) -> u64>(c: &Calc<K>, v: F32, m: F32) -> u8
    requires
        c.sound(),
    returns
        (v.add(c, m).mul(c, single(0x437f_0000)).round(c).to_u8(c)),
{
    v.add(c, m).mul(c, single(0x437f_0000)).round(c).to_u8(c)
}

/// Red, green and blue (0..1, before the offset) of a hue in sextant `k` with
/// chroma `ch` and second part `x`.
pub open spec fn sextant(k: u32, ch: F32, x: F32) -> (F32, F32, F32) {
    let z = single(0);
    if k == 0 {
        (ch, x, z)
    } else if k == 1 {
        (x, ch, z)
    } else if k == 2 {
        (z, ch, x)
    } else if k == 3 {
        (z, x, ch)
    } else if k == 4 {
        (x, z, ch)
    } else {
        (ch, z, x)
    }
}

/// Red, green and blue of a hue (degrees), saturation and value (0..1).
pub open spec fn rgb_of<K: Fn(Op, Width, u64, u64) -> u64>(c: &Calc<K>, h: F32, s: F32, v: F32) -> (u8, u8, u8) {
    let turn = h.rem_euclid(c, single(0x43b4_0000)).div(c, single(0x4270_0000));
    let ch = v.mul(c, s);
    let x = ch.mul(c, single(0x3f80_0000).sub(c, turn.rem(c, single(0x4000_0000)).sub(c, single(0x3f80_0000)).abs()));
    let m = v.sub(c, ch);
    let (r, g, b) = sextant(turn.to_u32(c), ch, x);
    (channel_byte(c, r, m), channel_byte(c, g, m), channel_byte(c, b, m))
}

/// HSV (h in 0..360, s/v in 0..1) -> RGB (0..255).
pub fn hsv_to_rgb<K: Fn(Op, Width, u64, u64) -> u64>(c: &Calc<K>, h: F32, s: F32, v: F32) -> (o: (u8, u8, u8))
    requires
        c.sound(),
    ensures
        o == rgb_of(c, h, s, v),
{
    let turn: F32 = h.rem_euclid(c, single(0x43b4_0000)).div(c, single(0x4270_0000));
    let ch: F32 = v.mul(c, s);
    let x: F32 = ch.mul(c, single(0x3f80_0000).sub(c, turn.rem(c, single(0x4000_0000)).sub(c, single(0x3f80_0000)).abs()));
    let m: F32 = v.sub(c, ch);
    let z: F32 = single(0);
    let (r, g, b): (F32, F32, F32) = match turn.to_u32(c) {
        0 => (ch, x, z),
        1 => (x, ch, z),
        2 => (z, ch, x),
        3 => (z, x, ch),
        4 => (x, z, ch),
        _ => (ch, z, x),
    };
    (channel_byte(c, r, m), channel_byte(c, g, m), channel_byte(c, b, m))
}

#[derive(Clone, Copy, Debug, PartialEq, Eq, Structural)]
pub enum ColorFilterMode {
    /// Keep only pixels inside the hue band (everything else -> transparent).
    Keep,
    /// Remove pixels inside the hue band.
    Remove,
}

pub const ONE: u32 = 0x3f80_0000;

pub const ONE_HALF: u32 = 0x3f00_0000;

/// The visual analog of a band-pass / notch filter: select or reject a hue
/// band. Applied per-pixel when sampling visual grains.
#[derive(Clone, Copy, Debug, PartialEq)]
pub struct ColorFilter {
    /// Center hue in degrees, 0..360.
    pub hue_center: F32,
    /// Full width of the hue band in degrees.
    pub hue_width: F32,
    /// Minimum saturation for a pixel to be considered "colored".
    pub sat_min: F32,
    /// Minimum value/brightness for a pixel to be considered.
    pub val_min: F32,
    pub mode: ColorFilterMode,
    /// 0..1: fraction of the band edge used as a soft falloff.
    pub softness: F32,
}

impl ColorFilter {
    /// A filter of that band: saturation from 0.1, value from 0.05, softness 0.25.
    pub open spec fn band(mode: ColorFilterMode, hue_center: F32, hue_width: F32) -> ColorFilter {
        ColorFilter {
            hue_center,
            hue_width,
            sat_min: single(0x3dcc_cccd),
            val_min: single(0x3d4c_cccd),
            mode,
            softness: single(0x3e80_0000),
        }
    }

    pub fn keep(hue_center: F32, hue_width: F32) -> (r: ColorFilter)
        ensures
            r == ColorFilter::band(ColorFilterMode::Keep, hue_center, hue_width),
    {
        ColorFilter {
            hue_center,
            hue_width,
            sat_min: F32 { bits: 0x3dcc_cccd },
            val_min: F32 { bits: 0x3d4c_cccd },
            mode: ColorFilterMode::Keep,
            softness: F32 { bits: 0x3e80_0000 },
        }
    }

    pub fn remove(hue_center: F32, hue_width: F32) -> (r: ColorFilter)
        ensures
            r == ColorFilter::band(ColorFilterMode::Remove, hue_center, hue_width),
    {
        let mut f: ColorFilter = ColorFilter::keep(hue_center, hue_width);
        f.mode = ColorFilterMode::Remove;
        f
    }

    /// How far a hue is from the band's center, degrees.
    pub open spec fn hue_gap<K: Fn(Op, Width, u64, u64) -> u64>(self, c: &Calc<K>, h: F32) -> F32 {
        let d = h.sub(c, self.hue_center).rem_euclid(c, single(0x43b4_0000));
        if single(0x4334_0000).lt(d) {
            single(0x43b4_0000).sub(c, d)
        } else {
            d
        }
    }

    /// How much a colour belongs to the band: 1 inside, 0 outside, a linear ramp
    /// across the soft edge. Colours of low saturation or value have no
    /// meaningful hue and count as outside.
    pub open spec fn membership<K: Fn(Op, Width, u64, u64) -> u64>(self, c: &Calc<K>, r: u8, g: u8, b: u8) -> F32 {
        let (h, s, v) = hsv_of(c, r, g, b);
        let d = self.hue_gap(c, h);
        let half = self.hue_width.div(c, single(0x4000_0000)).max(single(0x3a83_126f));
        let soft = half.mul(c, self.softness.clamp(single(0), single(0x3f80_0000))).max(single(0x3a83_126f));
        let in_band = if d.le(half.sub(c, soft)) {
            single(0x3f80_0000)
        } else if half.add(c, soft).le(d) {
            single(0)
        } else {
            single(0x3f80_0000).sub(c, d.sub(c, half.sub(c, soft)).div(c, single(0x4000_0000).mul(c, soft)))
        };
        let colored = if self.sat_min.le(s) && self.val_min.le(v) {
            single(0x3f80_0000)
        } else {
            single(0)
        };
        in_band.mul(c, colored)
    }

    /// The opacity multiplier (0..1) for a colour under this filter.
    pub open spec fn multiplier<K: Fn(Op, Width, u64, u64) -> u64>(self, c: &Calc<K>, r: u8, g: u8, b: u8) -> F32 {
        match self.mode {
            ColorFilterMode::Keep => self.membership(c, r, g, b),
            ColorFilterMode::Remove => single(0x3f80_0000).sub(c, self.membership(c, r, g, b)),
        }
    }

    /// Opacity multiplier (0..1) for a pixel under this filter.
    pub fn mask<K: Fn(Op, Width, u64, u64) -> u64>(&self, c: &Calc<K>, r: u8, g: u8, b: u8) -> (o: F32)
        requires
            c.sound(),
        ensures
            o == self.multiplier(c, r, g, b),
    {
        let (h, s, v): (F32, F32, F32) = rgb_to_hsv(c, r, g, b);
        let mut d: F32 = h.sub(c, self.hue_center).rem_euclid(c, single(0x43b4_0000));
        if single(0x4334_0000).lt(d) {
            d = single(0x43b4_0000).sub(c, d);
        }
        let half: F32 = self.hue_width.div(c, single(0x4000_0000)).max(single(0x3a83_126f));
        let soft: F32 = half.mul(c, self.softness.clamp(single(0), single(0x3f80_0000))).max(single(0x3a83_126f));
        let in_band: F32 = if d.le(half.sub(c, soft)) {
            single(0x3f80_0000)
        } else if half.add(c, soft).le(d) {
            single(0)
        } else {
            single(0x3f80_0000).sub(c, d.sub(c, half.sub(c, soft)).div(c, single(0x4000_0000).mul(c, soft)))
        };
        let colored: F32 = if self.sat_min.le(s) && self.val_min.le(v) {
            single(0x3f80_0000)
        } else {
            single(0)
        };
        let band: F32 = in_band.mul(c, colored);
        match self.mode {
            ColorFilterMode::Keep => band,
            ColorFilterMode::Remove => single(0x3f80_0000).sub(c, band),
        }
    }

    /// A pixel with its alpha scaled by this filter.
    pub open spec fn masked<K: Fn(Op, Width, u64, u64) -> u64>(self, c: &Calc<K>, p: Rgba) -> Rgba {
        Rgba {
            a: F32::of_count(c, p.a as u64).mul(c, self.multiplier(c, p.r, p.g, p.b)).to_u8(c),
            ..p
        }
    }

    /// Apply destructively to a frame's alpha channel (for previews).
    pub fn apply<K: Fn(Op, Width, u64, u64) -> u64>(&self, c: &Calc<K>, frame: &mut Frame)
        requires
            c.sound(),
            old(frame).wf(),
        ensures
            final(frame).wf(),
            final(frame).width == old(frame).width,
            final(frame).height == old(frame).height,
            final(frame)@.px == old(frame)@.px.map_values(|p: Rgba| self.masked(c, p)),
    {
        let n: usize = frame.area();
        let ghost before = frame@.px;
        let ghost size = (frame.width, frame.height);
        let mut i: usize = 0;
        while i < n
            invariant
                c.sound(),
                i <= n,
                frame.wf(),
                n == before.len(),
                frame@.px.len() == n,
                size == (frame.width, frame.height),
                forall|j: int| 0 <= j < i ==> frame@.px[j] == self.masked(c, before[j]),
                forall|j: int| i <= j < n ==> frame@.px[j] == before[j],
            decreases n - i,
        {
            let p: Rgba = frame.load(i);
            let m: F32 = self.mask(c, p.r, p.g, p.b);
            let a: u8 = F32::of_count(c, p.a as u64).mul(c, m).to_u8(c);
            frame.store(i, Rgba { r: p.r, g: p.g, b: p.b, a });
            i += 1;
        }
        assert(frame@.px =~= before.map_values(|p: Rgba| self.masked(c, p)));
    }
}

/// How grain events are drawn (pure style — the audio->visual mapping itself
/// lives in `AvLink`).
#[derive(Clone, Copy, Debug, PartialEq)]
pub struct VisualGrainStyle {
    /// Patch size as a fraction of the canvas per second of grain duration:
    /// `duration * size_scale`, kept within `min_size..=max_size`.
    pub size_scale: F32,
    pub min_size: F32,
    pub max_size: F32,
    /// 0 = alpha-over blending, 1 = additive glow. In between blends both.
    pub additive: F32,
    /// Vertical scatter amount (0 = all grains centered vertically).
    pub scatter_y: F32,
}

impl VisualGrainStyle {
    /// The style a new clip has.
    pub open spec fn standard() -> VisualGrainStyle {
        VisualGrainStyle {
            size_scale: single(0x400c_cccd),
            min_size: single(0x3df5_c28f),
            max_size: single(0x3f26_6666),
            additive: single(0x3eb3_3333),
            scatter_y: single(0x3f33_3333),
        }
    }

    /// Style for snippet clips: the patch is the whole frame.
    pub fn full_frame(additive: F32) -> (r: VisualGrainStyle)
        ensures
            r.size_scale == single(0x447a_0000),
            r.min_size == single(ONE),
            r.max_size == single(ONE),
            r.additive == additive,
            r.scatter_y == single(0),
    {
        VisualGrainStyle {
            size_scale: F32 { bits: 0x447a_0000 },
            min_size: F32 { bits: ONE },
            max_size: F32 { bits: ONE },
            additive,
            scatter_y: F32 { bits: 0 },
        }
    }
}

impl Default for VisualGrainStyle {
    fn default() -> (r: VisualGrainStyle)
        ensures
            r == VisualGrainStyle::standard(),
    {
        VisualGrainStyle {
            size_scale: F32 { bits: 0x400c_cccd },
            min_size: F32 { bits: 0x3df5_c28f },
            max_size: F32 { bits: 0x3f26_6666 },
            additive: F32 { bits: 0x3eb3_3333 },
            scatter_y: F32 { bits: 0x3f33_3333 },
        }
    }
}

/// The audio->visual correspondence, per clip. Full correspondence is the
/// default; every mapping is a dial (0 = unlinked, 1 = fully linked).
#[derive(Clone, Copy, Debug, PartialEq)]
pub struct AvLink {
    /// Grain gain drives visual opacity (0 = opacity ignores gain).
    pub gain_to_opacity: F32,
    /// The audio amplitude envelope drives opacity over the grain's life
    /// (0 = constant opacity while active).
    pub envelope_to_opacity: F32,
    /// Degrees of hue rotation per semitone of grain pitch.
    pub pitch_to_hue: F32,
    /// The visual patch plays its video at the audio playback rate
    /// (0 = patch always plays at 1x).
    pub pitch_to_rate: F32,
    /// Audio pan drives horizontal placement (0 = always centered).
    pub pan_to_x: F32,
    /// Reversed audio grains also play their video backwards.
    pub reverse_video: bool,
    /// The clip transform's x position drives audio pan (0 = unlinked).
    pub x_to_pan: F32,
    /// The clip transform's y drives audio brightness — up = airy, down =
    /// heavy. 0 = unlinked.
    pub y_to_brightness: F32,
    /// The clip transform's scale drives loudness — the distance cue
    /// (smaller = farther = quieter).
    pub scale_to_gain: F32,
}

impl Default for AvLink {
    fn default() -> (r: AvLink)
        ensures
            r == AvLink::full(),
    {
        let one: F32 = F32 { bits: ONE };
        AvLink {
            gain_to_opacity: one,
            envelope_to_opacity: one,
            pitch_to_hue: F32 { bits: 0x4140_0000 },
            pitch_to_rate: one,
            pan_to_x: one,
            reverse_video: true,
            x_to_pan: one,
            y_to_brightness: one,
            scale_to_gain: one,
        }
    }
}

/// The links after the dial of that key is set; `None` where there is no such dial.
pub open spec fn link_set(l: AvLink, key: Seq<char>, v: F32) -> Option<AvLink> {
    if key == "gain_to_opacity"@ {
        Some(AvLink { gain_to_opacity: v.clamped(single(0), single(ONE)), ..l })
    } else if key == "envelope_to_opacity"@ {
        Some(AvLink { envelope_to_opacity: v.clamped(single(0), single(ONE)), ..l })
    } else if key == "pitch_to_hue"@ || key == "hue_per_semitone"@ {
        Some(AvLink { pitch_to_hue: v, ..l })
    } else if key == "pitch_to_rate"@ {
        Some(AvLink { pitch_to_rate: v.clamped(single(0), single(ONE)), ..l })
    } else if key == "pan_to_x"@ {
        Some(AvLink { pan_to_x: v.clamped(single(0), single(ONE)), ..l })
    } else if key == "reverse_video"@ {
        Some(AvLink { reverse_video: single(ONE_HALF).below(v), ..l })
    } else if key == "x_to_pan"@ {
        Some(AvLink { x_to_pan: v.clamped(single(0), single(ONE)), ..l })
    } else if key == "y_to_brightness"@ {
        Some(AvLink { y_to_brightness: v.clamped(single(0), single(ONE)), ..l })
    } else if key == "scale_to_gain"@ {
        Some(AvLink { scale_to_gain: v.clamped(single(0), single(ONE)), ..l })
    } else {
        None
    }
}

impl AvLink {
    /// Full correspondence, with 12 degrees of hue per semitone.
    pub open spec fn full() -> AvLink {
        AvLink {
            gain_to_opacity: single(ONE),
            envelope_to_opacity: single(ONE),
            pitch_to_hue: single(0x4140_0000),
            pitch_to_rate: single(ONE),
            pan_to_x: single(ONE),
            reverse_video: true,
            x_to_pan: single(ONE),
            y_to_brightness: single(ONE),
            scale_to_gain: single(ONE),
        }
    }

    /// Set a link dial by name.
    pub fn set_param(&mut self, name: &str, value: F32) -> (r: Result<(), String>)
        ensures
            match link_set(*old(self), text::keyed(name@), value) {
                Some(l) => r is Ok && *final(self) == l,
                None => r is Err && *final(self) == *old(self) && r->Err_0@
                    == "unknown link parameter '"@ + text::keyed(name@) + "'"@,
            },
    {
        let key: Vec<char> = text::key(name);
        if text::spells(&key, "gain_to_opacity") {
            self.gain_to_opacity = value.clamp(F32 { bits: 0 }, F32 { bits: ONE });
        } else if text::spells(&key, "envelope_to_opacity") {
            self.envelope_to_opacity = value.clamp(F32 { bits: 0 }, F32 { bits: ONE });
        } else if text::spells(&key, "pitch_to_hue") || text::spells(&key, "hue_per_semitone") {
            self.pitch_to_hue = value;
        } else if text::spells(&key, "pitch_to_rate") {
            self.pitch_to_rate = value.clamp(F32 { bits: 0 }, F32 { bits: ONE });
        } else if text::spells(&key, "pan_to_x") {
            self.pan_to_x = value.clamp(F32 { bits: 0 }, F32 { bits: ONE });
        } else if text::spells(&key, "reverse_video") {
            self.reverse_video = F32 { bits: ONE_HALF }.lt(value);
        } else if text::spells(&key, "x_to_pan") {
            self.x_to_pan = value.clamp(F32 { bits: 0 }, F32 { bits: ONE });
        } else if text::spells(&key, "y_to_brightness") {
            self.y_to_brightness = value.clamp(F32 { bits: 0 }, F32 { bits: ONE });
        } else if text::spells(&key, "scale_to_gain") {
            self.scale_to_gain = value.clamp(F32 { bits: 0 }, F32 { bits: ONE });
        } else {
            let other: String = text::text_of(&key);
            return Err(text::join3("unknown link parameter '", other.as_str(), "'"));
        }
        Ok(())
    }
}

/// A scramble of 64 bits.
pub open spec fn scrambled(x: u64) -> u64 {
    let a = x.wrapping_add(0x9E3779B97F4A7C15);
    let b = (a ^ (a >> 30u64)).wrapping_mul(0xBF58476D1CE4E5B9);
    let c = (b ^ (b >> 27u64)).wrapping_mul(0x94D049BB133111EB);
    c ^ (c >> 31u64)
}

/// A stable number of [0, 1) for each grain id.
pub open spec fn scatter(x: u64) -> F32 {
    F32::unit((scrambled(x) >> 40u64) as int)
}

/// A stable number of [0, 1) for each grain id.
pub fn hash01(x: u64) -> (r: F32)
    ensures
        r == scatter(x),
{
    let mut z: u64 = x.wrapping_add(0x9E3779B97F4A7C15);
    z = (z ^ (z >> 30u64)).wrapping_mul(0xBF58476D1CE4E5B9);
    z = (z ^ (z >> 27u64)).wrapping_mul(0x94D049BB133111EB);
    z = z ^ (z >> 31u64);
    assert(z >> 40u64 < 0x100_0000) by (bit_vector);
    F32::from_unit((z >> 40u64) as u32)
}

/// The scatter number of every grain id lies in [0, 1).
pub proof fn law_scatter_stays_in_range(x: u64)
    ensures
        single(0).le(scatter(x)),
        scatter(x).lt(single(ONE)),
{
    let z = scrambled(x);
    assert(z >> 40u64 < 0x100_0000) by (bit_vector);
    law_unit_is_exact((z >> 40u64) as int);
}

/// A rectangle, normalized 0..1, y-down.
#[derive(Clone, Copy, Debug, PartialEq)]
pub struct Rect {
    pub x: F32,
    pub y: F32,
    pub w: F32,
    pub h: F32,
}

/// Geometry + shading for one visual grain at an output time — the one place
/// grain placement is computed. Both the compositor and the GPU preview consume
/// these, so they cannot drift.
#[derive(Clone, Copy, Debug, PartialEq)]
pub struct GrainDraw {
    /// Destination, already carrying the clip transform's translate/scale.
    pub dest: Rect,
    /// Rotation about the destination's center, radians (from the clip
    /// transform), applied in aspect-corrected space.
    pub rotation: F32,
    /// Source patch, in the source frame.
    pub patch: Rect,
    /// Source video time to sample (seconds; wrap at source duration).
    pub src_time: F64,
    pub alpha: F32,
    pub hue_shift: F32,
}

/// How a clip's grains become visible.
#[derive(Clone, Copy, Debug)]
pub struct Look {
    pub style: VisualGrainStyle,
    pub link: AvLink,
    pub transform: ClipTransform,
    /// The source's duration, seconds.
    pub source_duration: F64,
    /// The canvas width/height ratio (rotation stays rigid, not skewed).
    pub aspect: F32,
}

/// How long a grain has sounded at time `t`, as a part of its length.
#[verifier::allow_in_spec]
pub fn grain_phase<K: Fn(Op, Width, u64, u64) -> u64>(c: &Calc<K>, ev: GrainEvent, t: F64) -> F32
    requires
        c.sound(),
    returns
        (t.sub(c, ev.onset).div(c, ev.duration.to_f64(c)).to_f32(c)),
{
    t.sub(c, ev.onset).div(c, ev.duration.to_f64(c)).to_f32(c)
}

/// A grain's opacity at time `t`: envelope and gain, each as far as it is linked.
#[verifier::allow_in_spec]
pub fn draw_alpha<K: Fn(Op, Width, u64, u64) -> u64>(c: &Calc<K>, link: AvLink, ev: GrainEvent, t: F64) -> F32
    requires
        c.sound(),
    returns
        (single(0x3f80_0000).add(
            c,
            grain_env_skewed(c, grain_phase(c, ev, t), ev.envelope, ev.env_skew).sub(c, single(0x3f80_0000)).mul(
                c,
                link.envelope_to_opacity,
            ),
        ).mul(c, single(0x3f80_0000).add(c, ev.gain.min(single(0x3fc0_0000)).sub(c, single(0x3f80_0000)).mul(c, link.gain_to_opacity))).clamp(
            single(0),
            single(0x3f80_0000),
        )),
{
    single(0x3f80_0000).add(
        c,
        grain_env_skewed(c, grain_phase(c, ev, t), ev.envelope, ev.env_skew).sub(c, single(0x3f80_0000)).mul(
            c,
            link.envelope_to_opacity,
        ),
    ).mul(c, single(0x3f80_0000).add(c, ev.gain.min(single(0x3fc0_0000)).sub(c, single(0x3f80_0000)).mul(c, link.gain_to_opacity))).clamp(
        single(0),
        single(0x3f80_0000),
    )
}

/// The rate at which a grain's patch plays.
#[verifier::allow_in_spec]
pub fn visual_rate<K: Fn(Op, Width, u64, u64) -> u64>(c: &Calc<K>, link: AvLink, ev: GrainEvent) -> F64
    requires
        c.sound(),
    returns
        (single(0x3f80_0000).add(c, ev.pitch_ratio.sub(c, single(0x3f80_0000)).mul(c, link.pitch_to_rate)).to_f64(c)),
{
    single(0x3f80_0000).add(c, ev.pitch_ratio.sub(c, single(0x3f80_0000)).mul(c, link.pitch_to_rate)).to_f64(c)
}

/// The source time that a grain shows at time `t`.
#[verifier::allow_in_spec]
pub fn draw_time<K: Fn(Op, Width, u64, u64) -> u64>(c: &Calc<K>, link: AvLink, ev: GrainEvent, t: F64) -> F64
    requires
        c.sound(),
    returns
        (if ev.reverse && link.reverse_video {
            ev.source_pos.add(c, ev.duration.to_f64(c).mul(c, visual_rate(c, link, ev))).sub(
                c,
                t.sub(c, ev.onset).mul(c, visual_rate(c, link, ev)),
            )
        } else {
            ev.source_pos.add(c, t.sub(c, ev.onset).mul(c, visual_rate(c, link, ev)))
        }),
{
    if ev.reverse && link.reverse_video {
        ev.source_pos.add(c, ev.duration.to_f64(c).mul(c, visual_rate(c, link, ev))).sub(
            c,
            t.sub(c, ev.onset).mul(c, visual_rate(c, link, ev)),
        )
    } else {
        ev.source_pos.add(c, t.sub(c, ev.onset).mul(c, visual_rate(c, link, ev)))
    }
}

/// Degrees to radians.
#[verifier::allow_in_spec]
pub fn radians<K: Fn(Op, Width, u64, u64) -> u64>(c: &Calc<K>, degrees: F32) -> F32
    requires
        c.sound(),
    returns
        (degrees.mul(c, single(0x3c8e_fa35))),
{
    degrees.mul(c, single(0x3c8e_fa35))
}

/// The draw of a grain at time `t`.
pub open spec fn draw_of<K: Fn(Op, Width, u64, u64) -> u64>(c: &Calc<K>, look: Look, ev: GrainEvent, t: F64) -> GrainDraw {
    let rot = radians(c, look.transform.rotation);
    let (sin_r, cos_r) = (rot.sin(c), rot.cos(c));
    let scale = look.transform.scale.max(single(0x3c23_d70a));
    let aspect = look.aspect.max(single(0x3c23_d70a));
    let jy = scatter(ev.id).sub(c, single(0x3f00_0000)).mul(c, look.style.scatter_y);
    let cx0 = single(0x3f00_0000).add(c, single(0x3ee6_6666).mul(c, ev.pan).mul(c, look.link.pan_to_x));
    let cy0 = single(0x3f00_0000).add(c, jy);
    let ox = cx0.sub(c, single(0x3f00_0000)).mul(c, scale).mul(c, aspect);
    let oy = cy0.sub(c, single(0x3f00_0000)).mul(c, scale);
    let px = ox.mul(c, cos_r).sub(c, oy.mul(c, sin_r));
    let py = ox.mul(c, sin_r).add(c, oy.mul(c, cos_r));
    let cx = single(0x3f00_0000).add(c, px.div(c, aspect)).add(c, look.transform.x.mul(c, single(0x3f00_0000)));
    let cy = single(0x3f00_0000).add(c, py).add(c, look.transform.y.mul(c, single(0x3f00_0000)));
    let size = ev.duration.mul(c, look.style.size_scale).limit(
        look.style.min_size,
        look.style.max_size,
    ).mul(c, scale);
    let frac = if double(0).lt(look.source_duration) {
        ev.source_pos.div(c, look.source_duration).fract(c).to_f32(c)
    } else {
        single(0)
    };
    let patch = size.clamp(single(0x3d4c_cccd), single(0x3f80_0000));
    let room = single(0x3f80_0000).sub(c, patch);
    GrainDraw {
        dest: Rect {
            x: cx.sub(c, size.div(c, single(0x4000_0000))),
            y: cy.sub(c, size.div(c, single(0x4000_0000))),
            w: size,
            h: size,
        },
        rotation: rot,
        patch: Rect {
            x: frac.mul(c, room).limit(single(0), room.max(single(0))),
            y: single(0x3f00_0000).add(c, jy.mul(c, single(0x3f00_0000))).mul(c, room).limit(single(0), room.max(single(0))),
            w: patch,
            h: patch,
        },
        src_time: draw_time(c, look.link, ev, t),
        alpha: draw_alpha(c, look.link, ev, t),
        hue_shift: ratio_to_semitones(c, ev.pitch_ratio).mul(c, look.link.pitch_to_hue),
    }
}

/// Whether a grain is to be seen at time `t`: it sounds, and is not too faint.
pub open spec fn visible<K: Fn(Op, Width, u64, u64) -> u64>(c: &Calc<K>, look: Look, ev: GrainEvent, t: F64) -> bool {
    !t.lt(ev.onset) && !grain_end(c, ev).le(t) && !draw_alpha(c, look.link, ev, t).le(single(INVISIBLE))
}

/// The draws of the grains to be seen at time `t`, in order.
pub open spec fn draws_of<K: Fn(Op, Width, u64, u64) -> u64>(c: &Calc<K>, look: Look, events: Seq<GrainEvent>, t: F64) -> Seq<GrainDraw>
    decreases events.len(),
{
    if events.len() == 0 {
        seq![]
    } else {
        let before = draws_of(c, look, events.drop_last(), t);
        if visible(c, look, events.last(), t) {
            before.push(draw_of(c, look, events.last(), t))
        } else {
            before
        }
    }
}

/// At or below this alpha a grain or a pixel is left out: 0.003.
pub const INVISIBLE: u32 = 0x3b44_9ba6;

fn make_draw<K: Fn(Op, Width, u64, u64) -> u64>(c: &Calc<K>, look: &Look, ev: &GrainEvent, t: F64, alpha: F32) -> (r: GrainDraw)
    requires
        c.sound(),
        alpha == draw_alpha(c, look.link, *ev, t),
    ensures
        r == draw_of(c, *look, *ev, t),
{
    let rot: F32 = radians(c, look.transform.rotation);
    let sin_r: F32 = rot.sin(c);
    let cos_r: F32 = rot.cos(c);
    let scale: F32 = look.transform.scale.max(single(0x3c23_d70a));
    let aspect: F32 = look.aspect.max(single(0x3c23_d70a));
    let jy: F32 = hash01(ev.id).sub(c, single(0x3f00_0000)).mul(c, look.style.scatter_y);
    let cx0: F32 = single(0x3f00_0000).add(c, single(0x3ee6_6666).mul(c, ev.pan).mul(c, look.link.pan_to_x));
    let cy0: F32 = single(0x3f00_0000).add(c, jy);
    let ox: F32 = cx0.sub(c, single(0x3f00_0000)).mul(c, scale).mul(c, aspect);
    let oy: F32 = cy0.sub(c, single(0x3f00_0000)).mul(c, scale);
    let px: F32 = ox.mul(c, cos_r).sub(c, oy.mul(c, sin_r));
    let py: F32 = ox.mul(c, sin_r).add(c, oy.mul(c, cos_r));
    let cx: F32 = single(0x3f00_0000).add(c, px.div(c, aspect)).add(c, look.transform.x.mul(c, single(0x3f00_0000)));
    let cy: F32 = single(0x3f00_0000).add(c, py).add(c, look.transform.y.mul(c, single(0x3f00_0000)));
    let size: F32 = ev.duration.mul(c, look.style.size_scale).limit(
        look.style.min_size,
        look.style.max_size,
    ).mul(c, scale);
    let frac: F32 = if double(0).lt(look.source_duration) {
        ev.source_pos.div(c, look.source_duration).fract(c).to_f32(c)
    } else {
        single(0)
    };
    let patch: F32 = size.clamp(single(0x3d4c_cccd), single(0x3f80_0000));
    let room: F32 = single(0x3f80_0000).sub(c, patch);
    GrainDraw {
        dest: Rect {
            x: cx.sub(c, size.div(c, single(0x4000_0000))),
            y: cy.sub(c, size.div(c, single(0x4000_0000))),
            w: size,
            h: size,
        },
        rotation: rot,
        patch: Rect {
            x: frac.mul(c, room).limit(single(0), room.max(single(0))),
            y: single(0x3f00_0000).add(c, jy.mul(c, single(0x3f00_0000))).mul(c, room).limit(single(0), room.max(single(0))),
            w: patch,
            h: patch,
        },
        src_time: draw_time(c, look.link, *ev, t),
        alpha,
        hue_shift: ratio_to_semitones(c, ev.pitch_ratio).mul(c, look.link.pitch_to_hue),
    }
}

/// Compute the draw list for all events active at `t`. `aspect` is the
/// canvas width/height ratio (rotation stays rigid, not skewed).
pub fn grain_draws<K: Fn(Op, Width, u64, u64) -> u64>(
    c: &Calc<K>,
    events: &Vec<GrainEvent>,
    style: &VisualGrainStyle,
    link: &AvLink,
    transform: &ClipTransform,
    source_duration: F64,
    t: F64,
    aspect: F32,
) -> (r: Vec<GrainDraw>)
    requires
        c.sound(),
    ensures
        r@ == draws_of(
            c,
            (Look { style: *style, link: *link, transform: *transform, source_duration, aspect }),
            events@,
            t,
        ),
{
    let look: Look = Look { style: *style, link: *link, transform: *transform, source_duration, aspect };
    draws_with(c, events, &look, t)
}

/// The draws of the events active at `t`, seen through one look.
pub(crate) fn draws_with<K: Fn(Op, Width, u64, u64) -> u64>(c: &Calc<K>, events: &Vec<GrainEvent>, look: &Look, t: F64) -> (r: Vec<GrainDraw>)
    requires
        c.sound(),
    ensures
        r@ == draws_of(c, *look, events@, t),
{
    let mut out: Vec<GrainDraw> = Vec::new();
    let mut i: usize = 0;
    while i < events.len()
        invariant
            c.sound(),
            i <= events@.len(),
            out@ == draws_of(c, *look, events@.take(i as int), t),
        decreases events.len() - i,
    {
        let ev: GrainEvent = events[i];
        assert(events@.take(i + 1).drop_last() =~= events@.take(i as int));
        if !t.lt(ev.onset) && !grain_end(c, ev).le(t) {
            let alpha: F32 = draw_alpha(c, look.link, ev, t);
            if !alpha.le(single(INVISIBLE)) {
                let d: GrainDraw = make_draw(c, look, &ev, t, alpha);
                out.push(d);
            }
        }
        i += 1;
    }
    assert(events@.take(i as int) =~= events@);
    out
}

/// A draw's place on a canvas, pixels: center, half extents and rotation.
#[derive(Clone, Copy, Debug)]
pub struct Placement {
    pub cx: F32,
    pub cy: F32,
    pub rw: F32,
    pub rh: F32,
    pub sin_r: F32,
    pub cos_r: F32,
}

/// Where a draw lies on a canvas of that size.
#[verifier::allow_in_spec]
pub fn placement<K: Fn(Op, Width, u64, u64) -> u64>(c: &Calc<K>, d: GrainDraw, ow: F32, oh: F32) -> Placement
    requires
        c.sound(),
    returns
        (Placement {
            cx: d.dest.x.add(c, d.dest.w.div(c, single(0x4000_0000))).mul(c, ow),
            cy: d.dest.y.add(c, d.dest.h.div(c, single(0x4000_0000))).mul(c, oh),
            rw: d.dest.w.mul(c, ow).div(c, single(0x4000_0000)).max(single(0x3f80_0000)),
            rh: d.dest.h.mul(c, oh).div(c, single(0x4000_0000)).max(single(0x3f80_0000)),
            sin_r: d.rotation.sin(c),
            cos_r: d.rotation.cos(c),
        }),
{
    Placement {
        cx: d.dest.x.add(c, d.dest.w.div(c, single(0x4000_0000))).mul(c, ow),
        cy: d.dest.y.add(c, d.dest.h.div(c, single(0x4000_0000))).mul(c, oh),
        rw: d.dest.w.mul(c, ow).div(c, single(0x4000_0000)).max(single(0x3f80_0000)),
        rh: d.dest.h.mul(c, oh).div(c, single(0x4000_0000)).max(single(0x3f80_0000)),
        sin_r: d.rotation.sin(c),
        cos_r: d.rotation.cos(c),
    }
}

/// Half the width of the box around a placement.
#[verifier::allow_in_spec]
pub fn reach_x<K: Fn(Op, Width, u64, u64) -> u64>(c: &Calc<K>, p: Placement) -> F32
    requires
        c.sound(),
    returns
        (p.rw.mul(c, p.cos_r.abs()).add(c, p.rh.mul(c, p.sin_r.abs()))),
{
    p.rw.mul(c, p.cos_r.abs()).add(c, p.rh.mul(c, p.sin_r.abs()))
}

/// Half the height of the box around a placement.
#[verifier::allow_in_spec]
pub fn reach_y<K: Fn(Op, Width, u64, u64) -> u64>(c: &Calc<K>, p: Placement) -> F32
    requires
        c.sound(),
    returns
        (p.rw.mul(c, p.sin_r.abs()).add(c, p.rh.mul(c, p.cos_r.abs()))),
{
    p.rw.mul(c, p.sin_r.abs()).add(c, p.rh.mul(c, p.cos_r.abs()))
}

/// Whether the box around a placement covers column `x` of row `y`.
pub open spec fn boxed<K: Fn(Op, Width, u64, u64) -> u64>(c: &Calc<K>, p: Placement, x: int, y: int) -> bool {
    &&& p.cx.sub(c, reach_x(c, p)).floor(c).to_i32(c) <= x <= p.cx.add(c, reach_x(c, p)).ceil(c).to_i32(c)
    &&& p.cy.sub(c, reach_y(c, p)).floor(c).to_i32(c) <= y <= p.cy.add(c, reach_y(c, p)).ceil(c).to_i32(c)
}

/// Where a column lies across a placement, 0..1, rotated back.
#[verifier::allow_in_spec]
pub fn across<K: Fn(Op, Width, u64, u64) -> u64>(c: &Calc<K>, p: Placement, x: u32, y: u32) -> F32
    requires
        c.sound(),
    returns
        (F32::of_count(c, x as u64).add(c, single(0x3f00_0000)).sub(c, p.cx).mul(c, p.cos_r).add(
            c,
            F32::of_count(c, y as u64).add(c, single(0x3f00_0000)).sub(c, p.cy).mul(c, p.sin_r),
        ).div(c, p.rw).mul(c, single(0x3f00_0000)).add(c, single(0x3f00_0000))),
{
    F32::of_count(c, x as u64).add(c, single(0x3f00_0000)).sub(c, p.cx).mul(c, p.cos_r).add(
        c,
        F32::of_count(c, y as u64).add(c, single(0x3f00_0000)).sub(c, p.cy).mul(c, p.sin_r),
    ).div(c, p.rw).mul(c, single(0x3f00_0000)).add(c, single(0x3f00_0000))
}

/// Where a row lies down a placement, 0..1, rotated back.
#[verifier::allow_in_spec]
pub fn down<K: Fn(Op, Width, u64, u64) -> u64>(c: &Calc<K>, p: Placement, x: u32, y: u32) -> F32
    requires
        c.sound(),
    returns
        (F32::of_count(c, x as u64).add(c, single(0x3f00_0000)).sub(c, p.cx).minus().mul(c, p.sin_r).add(
            c,
            F32::of_count(c, y as u64).add(c, single(0x3f00_0000)).sub(c, p.cy).mul(c, p.cos_r),
        ).div(c, p.rh).mul(c, single(0x3f00_0000)).add(c, single(0x3f00_0000))),
{
    F32::of_count(c, x as u64).add(c, single(0x3f00_0000)).sub(c, p.cx).minus().mul(c, p.sin_r).add(
        c,
        F32::of_count(c, y as u64).add(c, single(0x3f00_0000)).sub(c, p.cy).mul(c, p.cos_r),
    ).div(c, p.rh).mul(c, single(0x3f00_0000)).add(c, single(0x3f00_0000))
}

/// The source column or row of a place `q` within a patch.
#[verifier::allow_in_spec]
pub fn texel<K: Fn(Op, Width, u64, u64) -> u64>(c: &Calc<K>, from: F32, q: F32, span: F32, n: u32) -> u32
    requires
        c.sound(),
    returns
        (from.add(c, q.mul(c, span)).mul(c, F32::of_count(c, n as u64).sub(c, single(0x3f80_0000))).to_u32(c)),
{
    from.add(c, q.mul(c, span)).mul(c, F32::of_count(c, n as u64).sub(c, single(0x3f80_0000))).to_u32(c)
}

/// One channel of a layer with a grain's on top: straight alpha, with an additive part.
#[verifier::allow_in_spec]
pub fn grain_channel<K: Fn(Op, Width, u64, u64) -> u64>(c: &Calc<K>, s: u8, d: u8, a: F32, da: F32, out_a: F32, additive: F32) -> u8
    requires
        c.sound(),
    returns
        (F32::of_count(c, s as u64).mul(c, a).add(
            c,
            F32::of_count(c, d as u64).mul(c, da).mul(c, single(0x3f80_0000).sub(c, a)),
        ).div(c, out_a).mul(c, single(0x3f80_0000).sub(c, additive)).add(
            c,
            F32::of_count(c, d as u64).mul(c, da).add(c, F32::of_count(c, s as u64).mul(c, a)).min(
                single(0x437f_0000),
            ).mul(c, additive),
        ).to_u8(c)),
{
    F32::of_count(c, s as u64).mul(c, a).add(
        c,
        F32::of_count(c, d as u64).mul(c, da).mul(c, single(0x3f80_0000).sub(c, a)),
    ).div(c, out_a).mul(c, single(0x3f80_0000).sub(c, additive)).add(
        c,
        F32::of_count(c, d as u64).mul(c, da).add(c, F32::of_count(c, s as u64).mul(c, a)).min(
            single(0x437f_0000),
        ).mul(c, additive),
    ).to_u8(c)
}

/// A layer's pixel with a grain's colour on top.
#[verifier::allow_in_spec]
pub fn grain_over<K: Fn(Op, Width, u64, u64) -> u64>(c: &Calc<K>, r: u8, g: u8, b: u8, was: Rgba, a: F32, da: F32, out_a: F32, additive: F32) -> Rgba
    requires
        c.sound(),
    returns
        (Rgba {
            r: grain_channel(c, r, was.r, a, da, out_a, additive),
            g: grain_channel(c, g, was.g, a, da, out_a, additive),
            b: grain_channel(c, b, was.b, a, da, out_a, additive),
            a: out_a.mul(c, single(0x437f_0000)).to_u8(c),
        }),
{
    Rgba {
        r: grain_channel(c, r, was.r, a, da, out_a, additive),
        g: grain_channel(c, g, was.g, a, da, out_a, additive),
        b: grain_channel(c, b, was.b, a, da, out_a, additive),
        a: out_a.mul(c, single(0x437f_0000)).to_u8(c),
    }
}

/// The alpha of one layer over another.
#[verifier::allow_in_spec]
pub fn stacked_alpha<K: Fn(Op, Width, u64, u64) -> u64>(c: &Calc<K>, a: F32, da: F32) -> F32
    requires
        c.sound(),
    returns
        (a.add(c, da.mul(c, single(0x3f80_0000).sub(c, a))).max(single(0x3586_37bd))),
{
    a.add(c, da.mul(c, single(0x3f80_0000).sub(c, a))).max(single(0x3586_37bd))
}

/// A colour with its hue turned, where the turn is half a degree or more.
pub open spec fn hue_turned<K: Fn(Op, Width, u64, u64) -> u64>(c: &Calc<K>, p: Rgba, shift: F32) -> (u8, u8, u8) {
    if single(0x3f00_0000).lt(shift.abs()) {
        let (h, s, v) = hsv_of(c, p.r, p.g, p.b);
        rgb_of(c, h.add(c, shift), s, v)
    } else {
        (p.r, p.g, p.b)
    }
}

/// What a layer's pixel becomes under source pixel `p` of a draw; unchanged where
/// the colour filter leaves too little of it.
pub open spec fn grain_blended<K: Fn(Op, Width, u64, u64) -> u64>(c: &Calc<K>, d: GrainDraw, cf: Option<ColorFilter>, additive: F32, p: Rgba, was: Rgba) -> Rgba {
    let a = match cf {
        Some(f) => d.alpha.mul(c, f.multiplier(c, p.r, p.g, p.b)),
        None => d.alpha,
    };
    if cf is Some && a.le(single(INVISIBLE)) {
        was
    } else {
        let (r, g, b) = hue_turned(c, p, d.hue_shift);
        let da = channel(c, was.a);
        grain_over(c, r, g, b, was, a, da, stacked_alpha(c, a, da), additive)
    }
}

/// What the layer's pixel at column `x` of row `y` becomes under a draw.
pub open spec fn grain_pixel<K: Fn(Op, Width, u64, u64) -> u64>(c: &Calc<K>, src: Image, d: GrainDraw, p: Placement, cf: Option<ColorFilter>, additive: F32, x: u32, y: u32, was: Rgba) -> Rgba {
    let qx = across(c, p, x, y);
    let qy = down(c, p, x, y);
    if boxed(c, p, x as int, y as int) && single(0).le(qx) && qx.lt(single(0x3f80_0000)) && single(0).le(qy) && qy.lt(single(0x3f80_0000)) {
        let sx = texel(c, d.patch.x, qx, d.patch.w, src.width as u32);
        let sy = texel(c, d.patch.y, qy, d.patch.h, src.height as u32);
        grain_blended(
            c,
            d,
            cf,
            additive,
            src.pixel(
                if sx < src.width {
                    sx as int
                } else {
                    src.width - 1
                },
                if sy < src.height {
                    sy as int
                } else {
                    src.height - 1
                },
            ),
            was,
        )
    } else {
        was
    }
}

/// A layer's pixels after a draw.
pub open spec fn layer_drawn<K: Fn(Op, Width, u64, u64) -> u64>(c: &Calc<K>, src: Image, d: GrainDraw, cf: Option<ColorFilter>, additive: F32, layer: Image) -> Seq<Rgba> {
    let p = placement(
        c,
        d,
        F32::of_count(c, layer.width as u64),
        F32::of_count(c, layer.height as u64),
    );
    Seq::new(
        layer.px.len(),
        |j: int| grain_pixel(
            c,
            src,
            d,
            p,
            cf,
            additive,
            (j % layer.width) as u32,
            (j / layer.width) as u32,
            layer.px[j],
        ),
    )
}

/// A layer's pixels after a run of draws, each from the clip's frame at its time.
pub open spec fn layer_composited<K: Fn(Op, Width, u64, u64) -> u64>(c: &Calc<K>, clip: VideoClip, draws: Seq<GrainDraw>, cf: Option<ColorFilter>, additive: F32, layer: Image) -> Seq<Rgba>
    decreases draws.len(),
{
    if draws.len() == 0 || !clip.plays() {
        layer.px
    } else {
        let before = layer_composited(c, clip, draws.drop_last(), cf, additive, layer);
        layer_drawn(
            c,
            clip.frames@[clip.shown(c, draws.last().src_time)]@,
            draws.last(),
            cf,
            additive,
            Image { px: before, ..layer },
        )
    }
}

fn blend_grain<K: Fn(Op, Width, u64, u64) -> u64>(c: &Calc<K>, d: &GrainDraw, cf: &Option<ColorFilter>, additive: F32, p: Rgba, was: Rgba) -> (r: Rgba)
    requires
        c.sound(),
    ensures
        r == grain_blended(c, *d, *cf, additive, p, was),
{
    let mut a: F32 = d.alpha;
    if let Some(f) = cf {
        a = d.alpha.mul(c, f.mask(c, p.r, p.g, p.b));
        if a.le(single(INVISIBLE)) {
            return was;
        }
    }
    let (r, g, b): (u8, u8, u8) = if single(0x3f00_0000).lt(d.hue_shift.abs()) {
        let (h, s, v): (F32, F32, F32) = rgb_to_hsv(c, p.r, p.g, p.b);
        hsv_to_rgb(c, h.add(c, d.hue_shift), s, v)
    } else {
        (p.r, p.g, p.b)
    };
    let da: F32 = channel(c, was.a);
    grain_over(c, r, g, b, was, a, da, stacked_alpha(c, a, da), additive)
}

fn draw_grain<K: Fn(Op, Width, u64, u64) -> u64>(c: &Calc<K>, src: &Frame, d: &GrainDraw, cf: &Option<ColorFilter>, additive: F32, out: &mut Frame)
    requires
        c.sound(),
        old(out).wf(),
        src.wf(),
        src.width > 0,
        src.height > 0,
    ensures
        final(out).wf(),
        final(out).width == old(out).width,
        final(out).height == old(out).height,
        final(out)@.px == layer_drawn(c, src@, *d, *cf, additive, old(out)@),
{
    let ghost before = out@;
    let w: u32 = out.width;
    let h: u32 = out.height;
    let p: Placement = placement(c, *d, F32::of_count(c, w as u64), F32::of_count(c, h as u64));
    let x_lo: i32 = p.cx.sub(c, reach_x(c, p)).floor(c).to_i32(c);
    let x_hi: i32 = p.cx.add(c, reach_x(c, p)).ceil(c).to_i32(c);
    let y_lo: i32 = p.cy.sub(c, reach_y(c, p)).floor(c).to_i32(c);
    let y_hi: i32 = p.cy.add(c, reach_y(c, p)).ceil(c).to_i32(c);
    let x_min: u32 = if x_lo < 0 { 0 } else { x_lo as u32 };
    let y_min: u32 = if y_lo < 0 { 0 } else { y_lo as u32 };
    let x_end: u32 = if x_hi < 0 {
        0
    } else if (x_hi as u32) < w {
        x_hi as u32 + 1
    } else {
        w
    };
    let y_end: u32 = if y_hi < 0 {
        0
    } else if (y_hi as u32) < h {
        y_hi as u32 + 1
    } else {
        h
    };
    let ghost want = layer_drawn(c, src@, *d, *cf, additive, before);
    let mut y: u32 = y_min;
    while y < y_end
        invariant
            c.sound(),
            y_min <= y,
            y <= y_end || y == y_min,
            y_end <= h,
            x_end <= w,
            before.width == w,
            before.height == h,
            before.px.len() == w * h,
            out.wf(),
            out.width == w,
            out.height == h,
            src.wf(),
            src.width > 0,
            src.height > 0,
            p == placement(c, *d, F32::of_count(c, w as u64), F32::of_count(c, h as u64)),
            want == layer_drawn(c, src@, *d, *cf, additive, before),
            forall|v: int, u: int| 0 <= u < w && 0 <= v < h ==> (boxed(c, p, u, v) <==> x_min <= u < x_end && y_min <= v < y_end),
            forall|j: int|
                0 <= j < w * h ==> #[trigger] out@.px[j] == (if x_min <= j % w as int && j % (w as int) < x_end
                    && y_min <= j / w as int && j / (w as int) < y {
                    want[j]
                } else {
                    before.px[j]
                }),
        decreases y_end - y,
    {
        let mut x: u32 = x_min;
        while x < x_end
            invariant
                c.sound(),
                x_min <= x,
                x <= x_end || x == x_min,
                y_min <= y < y_end,
                y_end <= h,
                x_end <= w,
                before.width == w,
                before.height == h,
                before.px.len() == w * h,
                out.wf(),
                out.width == w,
                out.height == h,
                src.wf(),
                src.width > 0,
                src.height > 0,
                p == placement(c, *d, F32::of_count(c, w as u64), F32::of_count(c, h as u64)),
                want == layer_drawn(c, src@, *d, *cf, additive, before),
                forall|v: int, u: int| 0 <= u < w && 0 <= v < h ==> (boxed(c, p, u, v) <==> x_min <= u < x_end && y_min <= v < y_end),
                forall|j: int|
                    0 <= j < w * h ==> #[trigger] out@.px[j] == (if x_min <= j % w as int && j % (w as int)
                        < x_end && y_min <= j / w as int && (j / (w as int) < y || (j / (w as int) == y
                        && j % (w as int) < x)) {
                        want[j]
                    } else {
                        before.px[j]
                    }),
            decreases x_end - x,
        {
            proof {
                lemma_index(w as int, h as int, x as int, y as int);
            }
            let i: usize = out.index(x, y);
            let was: Rgba = out.load(i);
            let px: Rgba = paint_pixel(c, src, d, &p, cf, additive, x, y, was);
            let ghost prev = out@.px;
            out.store(i, px);
            proof {
                assert(was == before.px[i as int]);
                assert(boxed(c, p, x as int, y as int));
                assert(px == want[i as int]);
                assert forall|j: int| 0 <= j < w * h implies #[trigger] out@.px[j] == (if x_min <= j % w as int
                    && j % (w as int) < x_end && y_min <= j / w as int && (j / (w as int) < y || (j / (
                w as int) == y && j % (w as int) < x + 1)) {
                    want[j]
                } else {
                    before.px[j]
                }) by {
                    lemma_place(w as int, h as int, j);
                    assert(j != i ==> prev[j] == out@.px[j]);
                }
            }
            x += 1;
        }
        y += 1;
    }
    proof {
        assert forall|j: int| 0 <= j < w * h implies out@.px[j] == want[j] by {
            lemma_place(w as int, h as int, j);
            assert(boxed(c, p, j % w as int, j / w as int) || want[j] == before.px[j]);
        }
        assert(out@.px =~= want);
    }
}

fn paint_pixel<K: Fn(Op, Width, u64, u64) -> u64>(c: &Calc<K>, src: &Frame, d: &GrainDraw, p: &Placement, cf: &Option<ColorFilter>, additive: F32, x: u32, y: u32, was: Rgba) -> (r: Rgba)
    requires
        c.sound(),
        src.wf(),
        src.width > 0,
        src.height > 0,
    ensures
        boxed(c, *p, x as int, y as int) ==> r == grain_pixel(c, src@, *d, *p, *cf, additive, x, y, was),
{
    let qx: F32 = across(c, *p, x, y);
    let qy: F32 = down(c, *p, x, y);
    if !(single(0).le(qx) && qx.lt(single(0x3f80_0000)) && single(0).le(qy) && qy.lt(single(0x3f80_0000))) {
        return was;
    }
    let sx: u32 = texel(c, d.patch.x, qx, d.patch.w, src.width);
    let sy: u32 = texel(c, d.patch.y, qy, d.patch.h, src.height);
    let cx: u32 = if sx < src.width { sx } else { src.width - 1 };
    let cy: u32 = if sy < src.height { sy } else { src.height - 1 };
    let si: usize = src.index(cx, cy);
    let q: Rgba = src.load(si);
    blend_grain(c, d, cf, additive, q, was)
}

/// Composite every grain active at output time `t` (timeline seconds) onto
/// `out` — a transparent layer with straight-alpha accumulation. Geometry comes
/// from `grain_draws` (shared with the GPU preview); this function rasterizes
/// each draw, supporting the clip transform's rotation.
pub fn composite_grains_frame<K: Fn(Op, Width, u64, u64) -> u64>(c: &Calc<K>, clip: &VideoClip, events: &Vec<GrainEvent>, style: &VisualGrainStyle, link: &AvLink, transform: &ClipTransform, color_filter: &Option<ColorFilter>, out: &mut Frame, t: F64)
    requires
        c.sound(),
        old(out).wf(),
        clip.wf(),
    ensures
        final(out).wf(),
        final(out).width == old(out).width,
        final(out).height == old(out).height,
        final(out)@.px == layer_composited(
            c,
            *clip,
            draws_of(
                c,
                look_at(c, *style, *link, *transform, clip.lasts(c), old(out).width, old(out).height),
                events@,
                t,
            ),
            *color_filter,
            style.additive.clamp(single(0), single(0x3f80_0000)),
            old(out)@,
        ),
{
    let look: Look = look_at(c, *style, *link, *transform, clip.duration(c), out.width, out.height);
    let additive: F32 = style.additive.clamp(single(0), single(0x3f80_0000));
    let draws: Vec<GrainDraw> = draws_with(c, events, &look, t);
    let ghost before = out@;
    let ghost size = (out.width, out.height);
    let mut k: usize = 0;
    while k < draws.len()
        invariant
            c.sound(),
            k <= draws@.len(),
            out.wf(),
            clip.wf(),
            size == (out.width, out.height),
            out@.width == before.width,
            out@.height == before.height,
            out@.px == layer_composited(
                c,
                *clip,
                draws@.take(k as int),
                *color_filter,
                additive,
                before,
            ),
        decreases draws.len() - k,
    {
        assert(draws@.take(k + 1).drop_last() =~= draws@.take(k as int));
        let d: GrainDraw = draws[k];
        let ghost prev = out@;
        match clip.frame_at(c, d.src_time) {
            Some(src) => {
                assert(prev == Image { px: prev.px, ..before });
                draw_grain(c, src, &d, color_filter, additive, out);
            },
            None => {},
        }
        k += 1;
    }
    assert(draws@.take(k as int) =~= draws@);
}

/// How a clip's grains look on a canvas of that size.
#[verifier::allow_in_spec]
pub fn look_at<K: Fn(Op, Width, u64, u64) -> u64>(c: &Calc<K>, style: VisualGrainStyle, link: AvLink, transform: ClipTransform, source_duration: F64, width: u32, height: u32) -> Look
    requires
        c.sound(),
    returns
        (Look {
            style,
            link,
            transform,
            source_duration,
            aspect: F32::of_count(c, width as u64).div(c, F32::of_count(c, height as u64).max(single(0x3f80_0000))),
        }),
{
    Look {
        style,
        link,
        transform,
        source_duration,
        aspect: F32::of_count(c, width as u64).div(c, F32::of_count(c, height as u64).max(single(0x3f80_0000))),
    }
}

/// From which weight on a layer's pixel counts: more than 0.002.
pub const FAINT: u32 = 0x3b03_126f;

/// The weight of a layer's pixel.
#[verifier::allow_in_spec]
pub fn layer_weight<K: Fn(Op, Width, u64, u64) -> u64>(c: &Calc<K>, a: u8, opacity: F32) -> F32
    requires
        c.sound(),
    returns
        (channel(c, a).mul(c, opacity)),
{
    channel(c, a).mul(c, opacity)
}

/// One channel with a layer's on top, mixed between alpha-over and additive.
#[verifier::allow_in_spec]
pub fn layer_channel<K: Fn(Op, Width, u64, u64) -> u64>(c: &Calc<K>, d: u8, s: u8, la: F32, add: F32) -> u8
    requires
        c.sound(),
    returns
        (F32::of_count(c, d as u64).mul(c, single(0x3f80_0000).sub(c, la)).add(c, F32::of_count(c, s as u64).mul(c, la)).mul(
            c,
            single(0x3f80_0000).sub(c, add),
        ).add(
            c,
            F32::of_count(c, d as u64).add(c, F32::of_count(c, s as u64).mul(c, la)).min(single(0x437f_0000)).mul(c, add),
        ).to_u8(c)),
{
    F32::of_count(c, d as u64).mul(c, single(0x3f80_0000).sub(c, la)).add(c, F32::of_count(c, s as u64).mul(c, la)).mul(
        c,
        single(0x3f80_0000).sub(c, add),
    ).add(
        c,
        F32::of_count(c, d as u64).add(c, F32::of_count(c, s as u64).mul(c, la)).min(single(0x437f_0000)).mul(c, add),
    ).to_u8(c)
}

/// An opaque pixel with a layer's on top; unchanged where the layer is too faint.
#[verifier::allow_in_spec]
pub fn layer_pixel<K: Fn(Op, Width, u64, u64) -> u64>(c: &Calc<K>, d: Rgba, s: Rgba, add: F32, la: F32) -> Rgba
    requires
        c.sound(),
    returns
        (if la.le(single(FAINT)) {
            d
        } else {
            Rgba {
                r: layer_channel(c, d.r, s.r, la, add),
                g: layer_channel(c, d.g, s.g, la, add),
                b: layer_channel(c, d.b, s.b, la, add),
                a: 255,
            }
        }),
{
    if la.le(single(FAINT)) {
        d
    } else {
        Rgba {
            r: layer_channel(c, d.r, s.r, la, add),
            g: layer_channel(c, d.g, s.g, la, add),
            b: layer_channel(c, d.b, s.b, la, add),
            a: 255,
        }
    }
}

/// A frame's pixels after a layer is blended in.
pub open spec fn layer_blended<K: Fn(Op, Width, u64, u64) -> u64>(c: &Calc<K>, dst: Seq<Rgba>, layer: Seq<Rgba>, additive: F32, opacity: F32) -> Seq<Rgba> {
    let add = additive.clamp(single(0), single(0x3f80_0000));
    let o = opacity.clamp(single(0), single(0x3f80_0000));
    if o.le(single(FAINT)) {
        dst
    } else {
        Seq::new(
            dst.len(),
            |i: int| layer_pixel(c, dst[i], layer[i], add, layer_weight(c, layer[i].a, o)),
        )
    }
}

/// Blend a (possibly effect-processed) layer onto an opaque master frame.
/// `additive` mixes between alpha-over and additive glow; `opacity` scales the
/// whole layer (track level -> opacity correspondence).
pub fn blend_layer<K: Fn(Op, Width, u64, u64) -> u64>(c: &Calc<K>, dst: &mut Frame, layer: &Frame, additive: F32, opacity: F32)
    requires
        c.sound(),
        old(dst).wf(),
        layer.wf(),
        layer.width == old(dst).width,
        layer.height == old(dst).height,
    ensures
        final(dst).wf(),
        final(dst).width == old(dst).width,
        final(dst).height == old(dst).height,
        final(dst)@.px == layer_blended(c, old(dst)@.px, layer@.px, additive, opacity),
{
    let add: F32 = additive.clamp(single(0), single(0x3f80_0000));
    let o: F32 = opacity.clamp(single(0), single(0x3f80_0000));
    if o.le(single(FAINT)) {
        return;
    }
    let n: usize = dst.area();
    let ghost before = dst@.px;
    let ghost size = (dst.width, dst.height);
    let mut i: usize = 0;
    while i < n
        invariant
            c.sound(),
            i <= n,
            dst.wf(),
            layer.wf(),
            size == (dst.width, dst.height),
            layer.width == dst.width,
            layer.height == dst.height,
            n == before.len(),
            dst@.px.len() == n,
            forall|j: int|
                0 <= j < i ==> dst@.px[j] == layer_pixel(
                    c,
                    before[j],
                    layer@.px[j],
                    add,
                    layer_weight(c, layer@.px[j].a, o),
                ),
            forall|j: int| i <= j < n ==> dst@.px[j] == before[j],
        decreases n - i,
    {
        let s: Rgba = layer.load(i);
        let px: Rgba = layer_pixel(c, dst.load(i), s, add, layer_weight(c, s.a, o));
        dst.store(i, px);
        i += 1;
    }
    assert(dst@.px =~= layer_blended(c, before, layer@.px, additive, opacity));
}

/// A pixel with a layer's on top, both with straight alpha; unchanged where the layer
/// is too faint.
#[verifier::allow_in_spec]
pub fn stacked_pixel<K: Fn(Op, Width, u64, u64) -> u64>(c: &Calc<K>, d: Rgba, s: Rgba, add: F32) -> Rgba
    requires
        c.sound(),
    returns
        (if channel(c, s.a).le(single(FAINT)) {
            d
        } else {
            grain_over(
                c,
                s.r,
                s.g,
                s.b,
                d,
                channel(c, s.a),
                channel(c, d.a),
                stacked_alpha(c, channel(c, s.a), channel(c, d.a)),
                add,
            )
        }),
{
    if channel(c, s.a).le(single(FAINT)) {
        d
    } else {
        grain_over(
            c,
            s.r,
            s.g,
            s.b,
            d,
            channel(c, s.a),
            channel(c, d.a),
            stacked_alpha(c, channel(c, s.a), channel(c, d.a)),
            add,
        )
    }
}

/// Blend one transparent layer over another transparent layer (straight alpha),
/// used to stack clip layers into a track layer.
pub fn blend_layer_over<K: Fn(Op, Width, u64, u64) -> u64>(c: &Calc<K>, dst: &mut Frame, src: &Frame, additive: F32)
    requires
        c.sound(),
        old(dst).wf(),
        src.wf(),
        src.width == old(dst).width,
        src.height == old(dst).height,
    ensures
        final(dst).wf(),
        final(dst).width == old(dst).width,
        final(dst).height == old(dst).height,
        final(dst)@.px == layers_stacked(c, old(dst)@.px, src@.px, additive),
{
    let add: F32 = additive.clamp(single(0), single(0x3f80_0000));
    let n: usize = dst.area();
    let ghost before = dst@.px;
    let ghost size = (dst.width, dst.height);
    let mut i: usize = 0;
    while i < n
        invariant
            c.sound(),
            i <= n,
            dst.wf(),
            src.wf(),
            size == (dst.width, dst.height),
            src.width == dst.width,
            src.height == dst.height,
            n == before.len(),
            dst@.px.len() == n,
            forall|j: int| 0 <= j < i ==> dst@.px[j] == stacked_pixel(c, before[j], src@.px[j], add),
            forall|j: int| i <= j < n ==> dst@.px[j] == before[j],
        decreases n - i,
    {
        let px: Rgba = stacked_pixel(c, dst.load(i), src.load(i), add);
        dst.store(i, px);
        i += 1;
    }
    assert(dst@.px =~= layers_stacked(c, before, src@.px, additive));
}

/// A layer's pixels after another layer is blended over it.
pub open spec fn layers_stacked<K: Fn(Op, Width, u64, u64) -> u64>(c: &Calc<K>, dst: Seq<Rgba>, src: Seq<Rgba>, additive: F32) -> Seq<Rgba> {
    Seq::new(
        dst.len(),
        |i: int| stacked_pixel(c, dst[i], src[i], additive.clamp(single(0), single(0x3f80_0000))),
    )
}

/// A layer too faint to count leaves the frame as it is.
pub proof fn law_faint_layers_change_nothing<K: Fn(Op, Width, u64, u64) -> u64>(c: &Calc<K>, dst: Seq<Rgba>, layer: Seq<Rgba>, additive: F32, opacity: F32)
    requires
        opacity.clamp(single(0), single(0x3f80_0000)).le(single(FAINT)) || forall|i: int|
            0 <= i < dst.len() ==> layer_weight(
                c,
                (#[trigger] layer[i]).a,
                opacity.clamp(single(0), single(0x3f80_0000)),
            ).le(single(FAINT)),
    ensures
        layer_blended(c, dst, layer, additive, opacity) == dst,
{
    assert(layer_blended(c, dst, layer, additive, opacity) =~= dst);
}

} // verus!
