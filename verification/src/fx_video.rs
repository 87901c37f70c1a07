//! The video side of the effects.
use crate::calc::{Calc, Op, Width};
use crate::fx::{lerp, AvEffect, EffectKind, BYPASS, TRANSPARENT};
use crate::num::{single, F32};
use crate::spectral::{descending, sort_descending};
use crate::video::{channel, lemma_index, lemma_place, Frame, Image, Rgba};
use std::collections::VecDeque;
use vstd::prelude::*;

verus! {

// -------------------------------------------------------------------- crush

/// The index of the pixel that stands for pixel `j`: the top left one of its block.
pub open spec fn block_corner(j: int, w: int, factor: int) -> int {
    (j / w / factor * factor) * w + j % w / factor * factor
}

/// Pixels in blocks of `factor` by `factor`, each in the colour of its corner.
pub open spec fn pixelated(image: Image, factor: int) -> Seq<Rgba> {
    if factor > 1 {
        Seq::new(image.px.len(), |j: int| image.px[block_corner(j, image.width, factor)])
    } else {
        image.px
    }
}

/// A channel rounded to `levels` steps.
#[verifier::allow_in_spec]
pub fn posterized<K: Fn(Op, Width, u64, u64) -> u64>(c: &Calc<K>, v: u8, levels: F32) -> u8
    requires
        c.sound(),
    returns
        (channel(c, v).mul(c, levels.sub(c, single(0x3f80_0000)).max(single(0x3f80_0000))).round(c).div(c, levels.sub(c, single(0x3f80_0000)).max(single(0x3f80_0000))).mul(
            c,
            single(0x437f_0000),
        ).to_u8(c)),
{
    channel(c, v).mul(c, levels.sub(c, single(0x3f80_0000)).max(single(0x3f80_0000))).round(c).div(c, levels.sub(c, single(0x3f80_0000)).max(single(0x3f80_0000))).mul(
        c,
        single(0x437f_0000),
    ).to_u8(c)
}

/// A pixel whose colours are rounded to `levels` steps; unchanged where those are as
/// many as a channel has.
#[verifier::allow_in_spec]
pub fn poster_pixel<K: Fn(Op, Width, u64, u64) -> u64>(c: &Calc<K>, p: Rgba, levels: F32) -> Rgba
    requires
        c.sound(),
    returns
        (if levels.lt(single(0x437f_0000)) {
            Rgba {
                r: posterized(c, p.r, levels),
                g: posterized(c, p.g, levels),
                b: posterized(c, p.b, levels),
                a: p.a,
            }
        } else {
            p
        }),
{
    if levels.lt(single(0x437f_0000)) {
        Rgba {
            r: posterized(c, p.r, levels),
            g: posterized(c, p.g, levels),
            b: posterized(c, p.b, levels),
            a: p.a,
        }
    } else {
        p
    }
}

/// Pixelate (nearest-block downres) + posterize color depth.
pub open spec fn crushed_image<K: Fn(Op, Width, u64, u64) -> u64>(c: &Calc<K>, image: Image, factor: int, levels: F32) -> Image {
    Image {
        px: pixelated(image, factor).map_values(|p: Rgba| poster_pixel(c, p, levels)),
        ..image
    }
}

pub(crate) proof fn lemma_block_corner(j: int, w: int, h: int, factor: int)
    requires
        0 <= j < w * h,
        0 <= w,
        0 <= h,
        factor > 0,
    ensures
        0 <= j % w / factor * factor <= j % w < w,
        0 <= j / w / factor * factor <= j / w < h,
        0 <= block_corner(j, w, factor) < w * h,
{
    lemma_place(w, h, j);
    let x = j % w;
    let y = j / w;
    assert(0 <= x / factor * factor <= x) by (nonlinear_arith)
        requires
            0 <= x,
            factor > 0,
    ;
    assert(0 <= y / factor * factor <= y) by (nonlinear_arith)
        requires
            0 <= y,
            factor > 0,
    ;
    lemma_index(w, h, x / factor * factor, y / factor * factor);
    assert(0 <= (y / factor * factor) * w) by (nonlinear_arith)
        requires
            0 <= y / factor * factor,
            0 < w,
    ;
}

/// Two pixels of one block come out alike.
pub proof fn law_crushed_blocks_are_flat<K: Fn(Op, Width, u64, u64) -> u64>(c: &Calc<K>, image: Image, factor: int, levels: F32, i: int, j: int)
    requires
        factor > 1,
        0 <= i < image.px.len(),
        0 <= j < image.px.len(),
        i % image.width / factor == j % image.width / factor,
        i / image.width / factor == j / image.width / factor,
    ensures
        crushed_image(c, image, factor, levels).px[i] == crushed_image(c, image, factor, levels).px[j],
{
}

fn video_crush<K: Fn(Op, Width, u64, u64) -> u64>(c: &Calc<K>, frame: &mut Frame, factor: u32, levels: F32)
    requires
        c.sound(),
        old(frame).wf(),
        factor > 0,
    ensures
        final(frame).wf(),
        final(frame).width == old(frame).width,
        final(frame).height == old(frame).height,
        final(frame)@ == crushed_image(c, old(frame)@, factor as int, levels),
{
    let src: Frame = frame.clone();
    let n: usize = frame.area();
    let ghost first = frame@;
    let ghost size = (frame.width, frame.height);
    let ghost want = crushed_image(c, first, factor as int, levels).px;
    let mut i: usize = 0;
    while i < n
        invariant
            c.sound(),
            i <= n,
            frame.wf(),
            n == first.px.len(),
            frame@.px.len() == n,
            size == (frame.width, frame.height),
            first.width == frame.width,
            first.height == frame.height,
            n == frame.width * frame.height,
            want == crushed_image(c, first, factor as int, levels).px,
            src@ == first,
            src.wf(),
            factor > 0,
            forall|j: int| 0 <= j < i ==> frame@.px[j] == want[j],
            forall|j: int| i <= j < n ==> frame@.px[j] == first.px[j],
        decreases n - i,
    {
        proof {
            lemma_place(frame.width as int, frame.height as int, i as int);
            lemma_block_corner(i as int, frame.width as int, frame.height as int, factor as int);
        }
        let mut at: usize = i;
        if factor > 1 {
            let x: u32 = (i % frame.width as usize) as u32;
            let y: u32 = (i / frame.width as usize) as u32;
            proof {
                lemma_corner(x, factor);
                lemma_corner(y, factor);
            }
            at = src.index(x / factor * factor, y / factor * factor);
        }
        let px: Rgba = poster_pixel(c, src.load(at), levels);
        frame.store(i, px);
        i += 1;
    }
    assert(frame@.px =~= want);
}

proof fn lemma_corner(x: u32, factor: u32)
    requires
        factor > 0,
    ensures
        0 <= x / factor * factor <= x,
{
    assert(0 <= x / factor * factor <= x) by (nonlinear_arith)
        requires
            factor > 0,
    ;
}

// -------------------------------------------------------------------- delay

/// The alpha of a frame with a ghost under it.
#[verifier::allow_in_spec]
pub fn under_alpha<K: Fn(Op, Width, u64, u64) -> u64>(c: &Calc<K>, da: F32, ga: F32) -> F32
    requires
        c.sound(),
    returns
        (da.add(c, ga.mul(c, single(0x3f80_0000).sub(c, da))).max(single(0x3586_37bd))),
{
    da.add(c, ga.mul(c, single(0x3f80_0000).sub(c, da))).max(single(0x3586_37bd))
}

/// One channel with a ghost's, before the glow: the ghost sits UNDER the frame where the
/// frame is transparent.
#[verifier::allow_in_spec]
pub fn under_channel<K: Fn(Op, Width, u64, u64) -> u64>(c: &Calc<K>, g: F32, d: u8, ga: F32, da: F32, out_a: F32) -> F32
    requires
        c.sound(),
    returns
        (F32::of_count(c, d as u64).mul(c, da).add(c, g.mul(c, ga).mul(c, single(0x3f80_0000).sub(c, da))).div(c, out_a)),
{
    F32::of_count(c, d as u64).mul(c, da).add(c, g.mul(c, ga).mul(c, single(0x3f80_0000).sub(c, da))).div(c, out_a)
}

/// One channel with a ghost's: UNDER the frame where it is transparent, SCREENED over it
/// where it is opaque (so master-bus ghosts glow instead of vanishing).
#[verifier::allow_in_spec]
pub fn ghost_channel<K: Fn(Op, Width, u64, u64) -> u64>(c: &Calc<K>, g: F32, d: u8, ga: F32, da: F32, out_a: F32) -> u8
    requires
        c.sound(),
    returns
        (under_channel(c, g, d, ga, da, out_a).add(
            c,
            g.mul(c, ga).mul(c, da).mul(
                c,
                single(0x3f80_0000).sub(c, under_channel(c, g, d, ga, da, out_a).div(c, single(0x437f_0000))),
            ),
        ).min(single(0x437f_0000)).to_u8(c)),
{
    under_channel(c, g, d, ga, da, out_a).add(
        c,
        g.mul(c, ga).mul(c, da).mul(
            c,
            single(0x3f80_0000).sub(c, under_channel(c, g, d, ga, da, out_a).div(c, single(0x437f_0000))),
        ),
    ).min(single(0x437f_0000)).to_u8(c)
}

/// At or below this alpha a ghost is left out: 0.004.
#[verifier::allow_in_spec]
#[inline]
pub fn faint_ghost(ga: F32) -> bool
    returns
        (ga.le(single(0x3b83_126f))),
{
    ga.le(single(0x3b83_126f))
}

/// A pixel with a ghost's pixel at a weight.
#[verifier::allow_in_spec]
pub fn ghosted_pixel<K: Fn(Op, Width, u64, u64) -> u64>(c: &Calc<K>, d: Rgba, g: Rgba, ga: F32) -> Rgba
    requires
        c.sound(),
    returns
        (if faint_ghost(ga) {
            d
        } else {
            Rgba {
                r: ghost_channel(
                    c,
                    F32::of_count(c, g.r as u64),
                    d.r,
                    ga,
                    channel(c, d.a),
                    under_alpha(c, channel(c, d.a), ga),
                ),
                g: ghost_channel(
                    c,
                    F32::of_count(c, g.g as u64),
                    d.g,
                    ga,
                    channel(c, d.a),
                    under_alpha(c, channel(c, d.a), ga),
                ),
                b: ghost_channel(
                    c,
                    F32::of_count(c, g.b as u64),
                    d.b,
                    ga,
                    channel(c, d.a),
                    under_alpha(c, channel(c, d.a), ga),
                ),
                a: under_alpha(c, channel(c, d.a), ga).mul(c, single(0x437f_0000)).to_u8(c),
            }
        }),
{
    if faint_ghost(ga) {
        d
    } else {
        Rgba {
            r: ghost_channel(
                c,
                F32::of_count(c, g.r as u64),
                d.r,
                ga,
                channel(c, d.a),
                under_alpha(c, channel(c, d.a), ga),
            ),
            g: ghost_channel(
                c,
                F32::of_count(c, g.g as u64),
                d.g,
                ga,
                channel(c, d.a),
                under_alpha(c, channel(c, d.a), ga),
            ),
            b: ghost_channel(
                c,
                F32::of_count(c, g.b as u64),
                d.b,
                ga,
                channel(c, d.a),
                under_alpha(c, channel(c, d.a), ga),
            ),
            a: under_alpha(c, channel(c, d.a), ga).mul(c, single(0x437f_0000)).to_u8(c),
        }
    }
}

/// How far a ghost drifts along `n` pixels.
#[verifier::allow_in_spec]
pub fn drift<K: Fn(Op, Width, u64, u64) -> u64>(c: &Calc<K>, shift: F32, n: u32) -> i32
    requires
        c.sound(),
    returns
        (shift.mul(c, F32::of_count(c, n as u64)).to_i32(c)),
{
    shift.mul(c, F32::of_count(c, n as u64)).to_i32(c)
}

/// A frame with a ghost drifted by (`dx`, `dy`) pixels.
pub open spec fn ghosted<K: Fn(Op, Width, u64, u64) -> u64>(c: &Calc<K>, image: Image, ghost: Image, mix: F32, dx: int, dy: int) -> Seq<Rgba> {
    Seq::new(
        image.px.len(),
        |j: int|
            {
                let gx = j % image.width - dx;
                let gy = j / image.width - dy;
                if 0 <= gx < image.width && 0 <= gy < image.height {
                    let g = ghost.pixel(gx, gy);
                    ghosted_pixel(c, image.px[j], g, channel(c, g.a).mul(c, mix))
                } else {
                    image.px[j]
                }
            },
    )
}

/// A pixel as it is kept for later echoes.
#[verifier::allow_in_spec]
pub fn kept_pixel<K: Fn(Op, Width, u64, u64) -> u64>(c: &Calc<K>, p: Rgba, feedback: F32) -> Rgba
    requires
        c.sound(),
    returns
        (if feedback.lt(single(0x3f7f_be77)) {
            Rgba { a: F32::of_count(c, p.a as u64).mul(c, feedback).to_u8(c), ..p }
        } else {
            p
        }),
{
    if feedback.lt(single(0x3f7f_be77)) {
        Rgba { a: F32::of_count(c, p.a as u64).mul(c, feedback).to_u8(c), ..p }
    } else {
        p
    }
}

/// The last `n` of a run of frames.
pub open spec fn latest(ring: Seq<Image>, n: int) -> Seq<Image> {
    if ring.len() > n {
        ring.skip(ring.len() - n)
    } else {
        ring
    }
}

/// A frame with the ghost of the frame from `delay_frames` ago.
pub open spec fn echoed<K: Fn(Op, Width, u64, u64) -> u64>(c: &Calc<K>, ring: Seq<Image>, delay_frames: int, mix: F32, shift_x: F32, shift_y: F32, image: Image) -> Image {
    if ring.len() >= delay_frames {
        Image {
            px: ghosted(
                c,
                image,
                ring[ring.len() - delay_frames],
                mix,
                drift(c, shift_x, image.width as u32) as int,
                drift(c, shift_y, image.height as u32) as int,
            ),
            ..image
        }
    } else {
        image
    }
}

/// The frames kept after a frame was processed, so that echoes of echoes decay by
/// `feedback`.
pub open spec fn kept_ring<K: Fn(Op, Width, u64, u64) -> u64>(c: &Calc<K>, ring: Seq<Image>, delay_frames: int, feedback: F32, image: Image) -> Seq<Image> {
    latest(
        ring.push(
            Image { px: image.px.map_values(|p: Rgba| kept_pixel(c, p, feedback)), ..image },
        ),
        delay_frames,
    )
}

/// What a run of frames shows.
pub open spec fn images(ring: Seq<Frame>) -> Seq<Image> {
    ring.map_values(|f: Frame| f@)
}

fn trim_ring(ring: &mut VecDeque<Frame>, delay_frames: usize)
    requires
        frames_wf(old(ring)@),
    ensures
        frames_wf(final(ring)@),
        images(final(ring)@) == latest(images(old(ring)@), delay_frames as int),
{
    let ghost first = images(ring@);
    let ghost mut cut: int = 0;
    while ring.len() > delay_frames
        invariant
            0 <= cut <= first.len(),
            cut > 0 ==> first.len() - cut >= delay_frames,
            ring@.len() == first.len() - cut,
            frames_wf(ring@),
            images(ring@) =~= first.skip(cut),
        decreases ring.len(),
    {
        let ghost before = ring@;
        let _ = ring.pop_front();
        proof {
            cut = cut + 1;
            assert(ring@ =~= before.skip(1));
            assert(images(ring@) =~= images(before).skip(1));
        }
    }
    assert(images(ring@) =~= latest(first, delay_frames as int));
}

/// Whether every frame is whole.
pub open spec fn frames_wf(ring: Seq<Frame>) -> bool {
    forall|i: int| 0 <= i < ring.len() ==> (#[trigger] ring[i]).wf()
}

/// Whether every frame is at least as wide and as high as an image.
pub open spec fn frames_cover(ring: Seq<Image>, image: Image) -> bool {
    forall|i: int|
        0 <= i < ring.len() ==> (#[trigger] ring[i]).width >= image.width && ring[i].height
            >= image.height
}

fn blend_ghost<K: Fn(Op, Width, u64, u64) -> u64>(c: &Calc<K>, frame: &mut Frame, ghost: &Frame, mix: F32, dx: i32, dy: i32)
    requires
        c.sound(),
        old(frame).wf(),
        ghost.wf(),
        ghost.width >= old(frame).width,
        ghost.height >= old(frame).height,
    ensures
        final(frame).wf(),
        final(frame).width == old(frame).width,
        final(frame).height == old(frame).height,
        final(frame)@.px == ghosted(c, old(frame)@, ghost@, mix, dx as int, dy as int),
{
    let n: usize = frame.area();
    let ghost first = frame@;
    let ghost size = (frame.width, frame.height);
    let ghost want = ghosted(c, first, ghost@, mix, dx as int, dy as int);
    let mut i: usize = 0;
    while i < n
        invariant
            c.sound(),
            i <= n,
            frame.wf(),
            n == first.px.len(),
            frame@.px.len() == n,
            size == (frame.width, frame.height),
            first.width == frame.width,
            first.height == frame.height,
            n == frame.width * frame.height,
            want == ghosted(c, first, ghost@, mix, dx as int, dy as int),
            ghost.wf(),
            ghost.width >= frame.width,
            ghost.height >= frame.height,
            forall|j: int| 0 <= j < i ==> frame@.px[j] == want[j],
            forall|j: int| i <= j < n ==> frame@.px[j] == first.px[j],
        decreases n - i,
    {
        proof {
            lemma_place(frame.width as int, frame.height as int, i as int);
        }
        let gx: i64 = (i % frame.width as usize) as i64 - dx as i64;
        let gy: i64 = (i / frame.width as usize) as i64 - dy as i64;
        let mut px: Rgba = frame.load(i);
        if 0 <= gx && gx < frame.width as i64 && 0 <= gy && gy < frame.height as i64 {
            let at: usize = ghost.index(gx as u32, gy as u32);
            let g: Rgba = ghost.load(at);
            px = ghosted_pixel(c, px, g, channel(c, g.a).mul(c, mix));
        }
        frame.store(i, px);
        i += 1;
    }
    assert(frame@.px =~= want);
}

fn fade_stored<K: Fn(Op, Width, u64, u64) -> u64>(c: &Calc<K>, frame: &mut Frame, feedback: F32)
    requires
        c.sound(),
        old(frame).wf(),
    ensures
        final(frame).wf(),
        final(frame).width == old(frame).width,
        final(frame).height == old(frame).height,
        final(frame)@.px == old(frame)@.px.map_values(|p: Rgba| kept_pixel(c, p, feedback)),
{
    let n: usize = frame.area();
    let ghost first = frame@;
    let ghost size = (frame.width, frame.height);
    let ghost want = first.px.map_values(|p: Rgba| kept_pixel(c, p, feedback));
    let mut i: usize = 0;
    while i < n
        invariant
            c.sound(),
            i <= n,
            frame.wf(),
            n == first.px.len(),
            frame@.px.len() == n,
            size == (frame.width, frame.height),
            first.width == frame.width,
            first.height == frame.height,
            n == frame.width * frame.height,
            want == first.px.map_values(|p: Rgba| kept_pixel(c, p, feedback)),
            forall|j: int| 0 <= j < i ==> frame@.px[j] == want[j],
            forall|j: int| i <= j < n ==> frame@.px[j] == first.px[j],
        decreases n - i,
    {
        let px: Rgba = kept_pixel(c, frame.load(i), feedback);
        frame.store(i, px);
        i += 1;
    }
    assert(frame@.px =~= want);
}

/// Ghost frames: blend the frame from `delay_frames` ago (post-effect, so
/// echoes compound with `feedback`), drifting by (shift_x, shift_y).
fn video_delay<K: Fn(Op, Width, u64, u64) -> u64>(c: &Calc<K>, frame: &mut Frame, ring: &mut VecDeque<Frame>, delay_frames: usize, feedback: F32, mix: F32, shift_x: F32, shift_y: F32)
    requires
        c.sound(),
        old(frame).wf(),
        frames_wf(old(ring)@),
        frames_cover(images(old(ring)@), old(frame)@),
        delay_frames > 0,
    ensures
        final(frame).wf(),
        final(frame).width == old(frame).width,
        final(frame).height == old(frame).height,
        frames_wf(final(ring)@),
        final(frame)@ == echoed(
            c,
            images(old(ring)@),
            delay_frames as int,
            mix,
            shift_x,
            shift_y,
            old(frame)@,
        ),
        images(final(ring)@) == kept_ring(
            c,
            images(old(ring)@),
            delay_frames as int,
            feedback,
            final(frame)@,
        ),
{
    let ghost first = frame@;
    let n: usize = ring.len();
    if n >= delay_frames {
        let dx: i32 = drift(c, shift_x, frame.width);
        let dy: i32 = drift(c, shift_y, frame.height);
        assert(images(ring@)[n - delay_frames] == ring@[n - delay_frames]@);
        blend_ghost(c, frame, &ring[n - delay_frames], mix, dx, dy);
    }
    let mut stored: Frame = frame.clone();
    assert(stored@ == frame@);
    fade_stored(c, &mut stored, feedback);
    let ghost before = ring@;
    ring.push_back(stored);
    assert(images(ring@) =~= images(before).push(stored@));
    trim_ring(ring, delay_frames);
}

/// Nothing echoes before the delay has passed, and no more than `delay_frames`
/// frames are kept.
pub proof fn law_no_ghost_before_the_delay<K: Fn(Op, Width, u64, u64) -> u64>(c: &Calc<K>, ring: Seq<Image>, delay_frames: int, feedback: F32, mix: F32, shift_x: F32, shift_y: F32, image: Image)
    requires
        ring.len() <= delay_frames,
        delay_frames > 0,
    ensures
        ring.len() < delay_frames ==> echoed(
            c,
            ring,
            delay_frames,
            mix,
            shift_x,
            shift_y,
            image,
        ) == image,
        kept_ring(c, ring, delay_frames, feedback, image).len() == if ring.len() < delay_frames {
            (ring.len() + 1) as int
        } else {
            delay_frames
        },
{
}

// ------------------------------------------------------------------- reverb

/// How much of the past a smear of that size keeps.
#[verifier::allow_in_spec]
pub fn smear_decay<K: Fn(Op, Width, u64, u64) -> u64>(c: &Calc<K>, size: F32) -> F32
    requires
        c.sound(),
    returns
        (single(0x3f40_0000).add(c, single(0x3e75_c28f).mul(c, size.limit(single(0), single(0x3f80_0000))))),
{
    single(0x3f40_0000).add(c, single(0x3e75_c28f).mul(c, size.limit(single(0), single(0x3f80_0000))))
}

/// A channel of a pixel by number: red, green, blue, alpha.
#[verifier::allow_in_spec]
#[inline]
pub fn part(p: Rgba, ch: usize) -> u8
    returns
        (if ch == 0 {
            p.r
        } else if ch == 1 {
            p.g
        } else if ch == 2 {
            p.b
        } else {
            p.a
        }),
{
    if ch == 0 {
        p.r
    } else if ch == 1 {
        p.g
    } else if ch == 2 {
        p.b
    } else {
        p.a
    }
}

/// What a pixel feeds into the smear: its colour premultiplied by alpha.
#[verifier::allow_in_spec]
pub fn smear_input<K: Fn(Op, Width, u64, u64) -> u64>(c: &Calc<K>, p: Rgba, ch: usize) -> F32
    requires
        c.sound(),
    returns
        (if ch < 3 {
            F32::of_count(c, part(p, ch) as u64).mul(c, channel(c, p.a))
        } else {
            channel(c, p.a).mul(c, single(0x437f_0000))
        }),
{
    if ch < 3 {
        F32::of_count(c, part(p, ch) as u64).mul(c, channel(c, p.a))
    } else {
        channel(c, p.a).mul(c, single(0x437f_0000))
    }
}

/// A smear fed with a frame.
pub open spec fn smear_fed<K: Fn(Op, Width, u64, u64) -> u64>(c: &Calc<K>, acc: Seq<F32>, px: Seq<Rgba>, decay: F32) -> Seq<F32> {
    Seq::new(
        4 * px.len(),
        |i: int|
            acc[i].mul(c, decay).add(
                c,
                smear_input(c, px[i / 4], (i % 4) as usize).mul(c, single(0x3f80_0000).sub(c, decay)),
            ),
    )
}

/// The sum of the first `n` values, in order.
pub open spec fn head_sum<K: Fn(Op, Width, u64, u64) -> u64>(c: &Calc<K>, d: Seq<F32>, n: int) -> F32
    decreases n,
{
    if n <= 0 {
        single(0)
    } else {
        head_sum(c, d, n - 1).add(c, d[n - 1])
    }
}

/// The smaller number.
pub open spec fn least(a: int, b: int) -> int {
    if a < b {
        a
    } else {
        b
    }
}

/// The sliding sum and count of a box blur at place `x` of a line: what comes in is
/// added, what goes out is taken off.
pub open spec fn sliding<K: Fn(Op, Width, u64, u64) -> u64>(c: &Calc<K>, d: Seq<F32>, radius: int, x: int) -> (F32, F32)
    decreases x,
{
    if x <= 0 {
        let n = least(d.len() as int, radius + 1);
        (head_sum(c, d, n), F32::of_count(c, n as u64))
    } else {
        let (s, n) = sliding(c, d, radius, x - 1);
        let (s1, n1) = if x + radius < d.len() {
            (s.add(c, d[x + radius]), n.add(c, single(0x3f80_0000)))
        } else {
            (s, n)
        };
        if x - 1 >= radius {
            (s1.sub(c, d[x - 1 - radius]), n1.sub(c, single(0x3f80_0000)))
        } else {
            (s1, n1)
        }
    }
}

/// A line after a box blur.
pub open spec fn line_blurred<K: Fn(Op, Width, u64, u64) -> u64>(c: &Calc<K>, d: Seq<F32>, radius: int) -> Seq<F32> {
    Seq::new(d.len(), |x: int| sliding(c, d, radius, x).0.div(c, sliding(c, d, radius, x).1))
}

/// Channel `ch` of row `y` of an RGBA buffer of width `w`.
pub open spec fn row_line(data: Seq<F32>, w: int, y: int, ch: int) -> Seq<F32> {
    Seq::new(w as nat, |k: int| data[y * (4 * w) + 4 * k + ch])
}

/// Lane `lane` (column and channel) of an RGBA buffer of `w` by `h`.
pub open spec fn column_line(data: Seq<F32>, w: int, h: int, lane: int) -> Seq<F32> {
    Seq::new(h as nat, |k: int| data[k * (4 * w) + lane])
}

/// A buffer with its rows blurred.
pub open spec fn rows_blurred<K: Fn(Op, Width, u64, u64) -> u64>(c: &Calc<K>, data: Seq<F32>, w: int, radius: int) -> Seq<F32> {
    Seq::new(
        data.len(),
        |i: int|
            line_blurred(c, row_line(data, w, i / (4 * w), i % (4 * w) % 4), radius)[i % (4 * w)
                / 4],
    )
}

/// A buffer with its columns blurred.
pub open spec fn columns_blurred<K: Fn(Op, Width, u64, u64) -> u64>(c: &Calc<K>, data: Seq<F32>, w: int, h: int, radius: int) -> Seq<F32> {
    Seq::new(
        data.len(),
        |i: int| line_blurred(c, column_line(data, w, h, i % (4 * w)), radius)[i / (4 * w)],
    )
}

/// A buffer after a separable box blur.
pub open spec fn box_blurred<K: Fn(Op, Width, u64, u64) -> u64>(c: &Calc<K>, data: Seq<F32>, w: int, h: int, radius: int) -> Seq<F32> {
    columns_blurred(c, rows_blurred(c, data, w, radius), w, h, radius)
}

fn blur_line<K: Fn(Op, Width, u64, u64) -> u64>(c: &Calc<K>, d: &Vec<F32>, radius: usize) -> (r: Vec<F32>)
    requires
        c.sound(),
    ensures
        r@ == line_blurred(c, d@, radius as int),
{
    let len: usize = d.len();
    let n: usize = if radius < len { radius + 1 } else { len };
    assert(n == least(len as int, radius + 1));
    let mut sum: F32 = single(0);
    let mut i: usize = 0;
    while i < n
        invariant
            c.sound(),
            i <= n <= d@.len(),
            sum == head_sum(c, d@, i as int),
        decreases n - i,
    {
        sum = sum.add(c, d[i]);
        i += 1;
    }
    let mut count: F32 = F32::of_count(c, n as u64);
    let mut out: Vec<F32> = Vec::new();
    let mut x: usize = 0;
    while x < len
        invariant
            c.sound(),
            x <= len,
            len == d@.len(),
            (sum, count) == sliding(c, d@, radius as int, x as int),
            out@ =~= line_blurred(c, d@, radius as int).take(x as int),
        decreases len - x,
    {
        out.push(sum.div(c, count));
        if len - x > 1 && radius < len - x - 1 {
            sum = sum.add(c, d[x + radius + 1]);
            count = count.add(c, single(0x3f80_0000));
        }
        if x >= radius {
            sum = sum.sub(c, d[x - radius]);
            count = count.sub(c, single(0x3f80_0000));
        }
        x += 1;
    }
    out
}

fn read_line(data: &Vec<F32>, start: usize, stride: usize, n: usize) -> (r: Vec<F32>)
    requires
        n > 0 ==> start + (n - 1) * stride < data@.len(),
    ensures
        r@ == Seq::new(n as nat, |k: int| data@[start + k * stride]),
{
    let mut out: Vec<F32> = Vec::new();
    assert(data.len() == data@.len());
    let mut k: usize = 0;
    while k < n
        invariant
            k <= n,
            n > 0 ==> start + (n - 1) * stride < data.len(),
            out@ =~= Seq::new(k as nat, |k: int| data@[start + k * stride]),
        decreases n - k,
    {
        assert(0 <= k * stride <= (n - 1) * stride) by (nonlinear_arith)
            requires
                k <= n - 1,
        ;
        out.push(data[start + k * stride]);
        k += 1;
    }
    out
}

fn blur_rows<K: Fn(Op, Width, u64, u64) -> u64>(c: &Calc<K>, data: &Vec<F32>, w: usize, h: usize, radius: usize) -> (r: Vec<F32>)
    requires
        c.sound(),
        data@.len() == h * (4 * w),
        4 * w <= usize::MAX,
    ensures
        r@ == rows_blurred(c, data@, w as int, radius as int),
{
    let len: usize = data.len();
    let span: usize = 4 * w;
    let mut lines: Vec<Vec<F32>> = Vec::new();
    let mut y: usize = 0;
    while y < h
        invariant
            c.sound(),
            y <= h,
            span == 4 * w,
            len == data@.len(),
            len == h * span,
            lines@.len() == 4 * y,
            forall|k: int|
                0 <= k < lines@.len() ==> (#[trigger] lines@[k])@ == line_blurred(
                    c,
                    row_line(data@, w as int, k / 4, k % 4),
                    radius as int,
                ),
        decreases h - y,
    {
        assert(0 <= y * span && y * span + span <= h * span) by (nonlinear_arith)
            requires
                y + 1 <= h,
        ;
        let mut ch: usize = 0;
        while ch < 4
            invariant
                c.sound(),
                ch <= 4,
                y < h,
                span == 4 * w,
                len == data@.len(),
                len == data.len(),
                0 <= y * span,
                y * span + span <= len,
                lines@.len() == 4 * y + ch,
                forall|k: int|
                    0 <= k < lines@.len() ==> (#[trigger] lines@[k])@ == line_blurred(
                        c,
                        row_line(data@, w as int, k / 4, k % 4),
                        radius as int,
                    ),
            decreases 4 - ch,
        {
            let start: usize = if w == 0 { 0 } else { y * span + ch };
            let line: Vec<F32> = read_line(data, start, 4, w);
            assert(line@ =~= row_line(data@, w as int, y as int, ch as int));
            let done: Vec<F32> = blur_line(c, &line, radius);
            assert((4 * y + ch) / 4 == y && (4 * y + ch) % 4 == ch as int);
            lines.push(done);
            ch += 1;
        }
        y += 1;
    }
    let ghost want = rows_blurred(c, data@, w as int, radius as int);
    let mut out: Vec<F32> = Vec::new();
    let mut y: usize = 0;
    while y < h
        invariant
            y <= h,
            span == 4 * w,
            want == rows_blurred(c, data@, w as int, radius as int),
            want.len() == h * span,
            lines@.len() == 4 * h,
            forall|k: int|
                0 <= k < lines@.len() ==> (#[trigger] lines@[k])@ == line_blurred(
                    c,
                    row_line(data@, w as int, k / 4, k % 4),
                    radius as int,
                ),
            out@.len() == y * span,
            forall|j: int| 0 <= j < out@.len() ==> out@[j] == want[j],
        decreases h - y,
    {
        let n: usize = lines.len();
        let mut x: usize = 0;
        while x < w
            invariant
                x <= w,
                y < h,
                span == 4 * w,
                want == rows_blurred(c, data@, w as int, radius as int),
                want.len() == h * span,
                n == 4 * h,
                n == lines@.len(),
                forall|k: int|
                    0 <= k < lines@.len() ==> (#[trigger] lines@[k])@ == line_blurred(
                        c,
                        row_line(data@, w as int, k / 4, k % 4),
                        radius as int,
                    ),
                out@.len() == y * span + 4 * x,
                forall|j: int| 0 <= j < out@.len() ==> out@[j] == want[j],
            decreases w - x,
        {
            proof {
                lemma_index(4 * w as int, h as int, 4 * x as int, y as int);
                lemma_index(4 * w as int, h as int, 4 * x + 1, y as int);
                lemma_index(4 * w as int, h as int, 4 * x + 2, y as int);
                lemma_index(4 * w as int, h as int, 4 * x + 3, y as int);
            }
            out.push(lines[4 * y][x]);
            out.push(lines[4 * y + 1][x]);
            out.push(lines[4 * y + 2][x]);
            out.push(lines[4 * y + 3][x]);
            x += 1;
        }
        assert((y + 1) * span == y * span + span) by (nonlinear_arith);
        y += 1;
    }
    assert(out@ =~= want);
    out
}

fn blur_columns<K: Fn(Op, Width, u64, u64) -> u64>(c: &Calc<K>, data: &Vec<F32>, w: usize, h: usize, radius: usize) -> (r: Vec<F32>)
    requires
        c.sound(),
        data@.len() == h * (4 * w),
        4 * w <= usize::MAX,
    ensures
        r@ == columns_blurred(c, data@, w as int, h as int, radius as int),
{
    let len: usize = data.len();
    let span: usize = 4 * w;
    let mut lines: Vec<Vec<F32>> = Vec::new();
    let mut lane: usize = 0;
    while lane < span
        invariant
            c.sound(),
            lane <= span,
            span == 4 * w,
            len == data@.len(),
            len == h * span,
            lines@.len() == lane,
            forall|k: int|
                0 <= k < lines@.len() ==> (#[trigger] lines@[k])@ == line_blurred(
                    c,
                    column_line(data@, w as int, h as int, k),
                    radius as int,
                ),
        decreases span - lane,
    {
        assert(h > 0 ==> lane + (h - 1) * span < h * span) by (nonlinear_arith)
            requires
                lane < span,
        ;
        let line: Vec<F32> = read_line(data, lane, span, h);
        assert(line@ =~= column_line(data@, w as int, h as int, lane as int));
        let done: Vec<F32> = blur_line(c, &line, radius);
        lines.push(done);
        lane += 1;
    }
    let ghost want = columns_blurred(c, data@, w as int, h as int, radius as int);
    let mut out: Vec<F32> = Vec::new();
    let mut y: usize = 0;
    while y < h
        invariant
            y <= h,
            span == 4 * w,
            want == columns_blurred(c, data@, w as int, h as int, radius as int),
            want.len() == h * span,
            lines@.len() == span,
            forall|k: int|
                0 <= k < lines@.len() ==> (#[trigger] lines@[k])@ == line_blurred(
                    c,
                    column_line(data@, w as int, h as int, k),
                    radius as int,
                ),
            out@.len() == y * span,
            forall|j: int| 0 <= j < out@.len() ==> out@[j] == want[j],
        decreases h - y,
    {
        let mut lane: usize = 0;
        while lane < span
            invariant
                lane <= span,
                y < h,
                span == 4 * w,
                want == columns_blurred(c, data@, w as int, h as int, radius as int),
                want.len() == h * span,
                lines@.len() == span,
                forall|k: int|
                    0 <= k < lines@.len() ==> (#[trigger] lines@[k])@ == line_blurred(
                        c,
                        column_line(data@, w as int, h as int, k),
                        radius as int,
                    ),
                out@.len() == y * span + lane,
                forall|j: int| 0 <= j < out@.len() ==> out@[j] == want[j],
            decreases span - lane,
        {
            proof {
                let j = y * span + lane;
                lemma_index(span as int, h as int, lane as int, y as int);
                assert(span * h == h * span) by (nonlinear_arith);
                assert(j / span as int == y && j % span as int == lane);
                assert(want[j] == lines@[lane as int]@[y as int]);
            }
            out.push(lines[lane][y]);
            lane += 1;
        }
        assert((y + 1) * span == y * span + span) by (nonlinear_arith);
        y += 1;
    }
    assert(out@ =~= want);
    out
}

/// Separable box blur over an RGBA buffer.
fn box_blur<K: Fn(Op, Width, u64, u64) -> u64>(c: &Calc<K>, data: &mut Vec<F32>, w: usize, h: usize, radius: usize)
    requires
        c.sound(),
        old(data)@.len() == h * (4 * w),
        4 * w <= usize::MAX,
    ensures
        final(data)@ == box_blurred(c, old(data)@, w as int, h as int, radius as int),
{
    let tmp: Vec<F32> = blur_rows(c, data, w, h, radius);
    *data = blur_columns(c, &tmp, w, h, radius);
}

/// The blur radius of a damping.
#[verifier::allow_in_spec]
pub fn smear_radius<K: Fn(Op, Width, u64, u64) -> u64>(c: &Calc<K>, damp: F32) -> usize
    requires
        c.sound(),
    returns
        (damp.limit(single(0), single(0x3f80_0000)).mul(c, single(0x40c0_0000)).to_size(c)),
{
    damp.limit(single(0), single(0x3f80_0000)).mul(c, single(0x40c0_0000)).to_size(c)
}

/// The colour of a smear: its channel over its alpha.
#[verifier::allow_in_spec]
pub fn smear_colour<K: Fn(Op, Width, u64, u64) -> u64>(c: &Calc<K>, v: F32, alpha: F32) -> F32
    requires
        c.sound(),
    returns
        (v.div(c, alpha.div(c, single(0x437f_0000)).max(single(0x3586_37bd)))),
{
    v.div(c, alpha.div(c, single(0x437f_0000)).max(single(0x3586_37bd)))
}

/// A pixel with the smear under or over it.
#[verifier::allow_in_spec]
pub fn smeared_pixel<K: Fn(Op, Width, u64, u64) -> u64>(c: &Calc<K>, d: Rgba, r: F32, g: F32, b: F32, a: F32, sa: F32) -> Rgba
    requires
        c.sound(),
    returns
        (if faint_ghost(sa) {
            d
        } else {
            Rgba {
                r: ghost_channel(
                    c,
                    smear_colour(c, r, a),
                    d.r,
                    sa,
                    channel(c, d.a),
                    under_alpha(c, channel(c, d.a), sa),
                ),
                g: ghost_channel(
                    c,
                    smear_colour(c, g, a),
                    d.g,
                    sa,
                    channel(c, d.a),
                    under_alpha(c, channel(c, d.a), sa),
                ),
                b: ghost_channel(
                    c,
                    smear_colour(c, b, a),
                    d.b,
                    sa,
                    channel(c, d.a),
                    under_alpha(c, channel(c, d.a), sa),
                ),
                a: under_alpha(c, channel(c, d.a), sa).mul(c, single(0x437f_0000)).to_u8(c),
            }
        }),
{
    if faint_ghost(sa) {
        d
    } else {
        Rgba {
            r: ghost_channel(
                c,
                smear_colour(c, r, a),
                d.r,
                sa,
                channel(c, d.a),
                under_alpha(c, channel(c, d.a), sa),
            ),
            g: ghost_channel(
                c,
                smear_colour(c, g, a),
                d.g,
                sa,
                channel(c, d.a),
                under_alpha(c, channel(c, d.a), sa),
            ),
            b: ghost_channel(
                c,
                smear_colour(c, b, a),
                d.b,
                sa,
                channel(c, d.a),
                under_alpha(c, channel(c, d.a), sa),
            ),
            a: under_alpha(c, channel(c, d.a), sa).mul(c, single(0x437f_0000)).to_u8(c),
        }
    }
}

/// A frame's pixels with a smear on them.
pub open spec fn smeared<K: Fn(Op, Width, u64, u64) -> u64>(c: &Calc<K>, px: Seq<Rgba>, acc: Seq<F32>, mix: F32) -> Seq<Rgba> {
    Seq::new(
        px.len(),
        |j: int|
            smeared_pixel(
                c,
                px[j],
                acc[4 * j],
                acc[4 * j + 1],
                acc[4 * j + 2],
                acc[4 * j + 3],
                acc[4 * j + 3].div(c, single(0x437f_0000)).mul(c, mix),
            ),
    )
}

/// The smear after a frame: fed, then blurred. A smear of another size starts anew.
pub open spec fn smear_after<K: Fn(Op, Width, u64, u64) -> u64>(c: &Calc<K>, acc: Seq<F32>, image: Image, size: F32, damp: F32) -> Seq<F32> {
    let from = if acc.len() != 4 * image.px.len() {
        Seq::new(4 * image.px.len(), |i: int| single(0))
    } else {
        acc
    };
    let fed = smear_fed(c, from, image.px, smear_decay(c, size));
    let radius = smear_radius(c, damp);
    if radius > 0 {
        box_blurred(c, fed, image.width, image.height, radius as int)
    } else {
        fed
    }
}

/// Persistence + blur: an accumulator remembers past frames with a decay
/// set by `size`, blurred by `damp`, mixed back under the live frame.
fn video_reverb<K: Fn(Op, Width, u64, u64) -> u64>(c: &Calc<K>, frame: &mut Frame, acc: &mut Vec<F32>, size: F32, damp: F32, mix: F32)
    requires
        c.sound(),
        old(frame).wf(),
    ensures
        final(frame).wf(),
        final(frame).width == old(frame).width,
        final(frame).height == old(frame).height,
        final(acc)@ == smear_after(c, old(acc)@, old(frame)@, size, damp),
        final(frame)@.px == smeared(c, old(frame)@.px, final(acc)@, mix),
{
    let len: usize = frame.data.len();
    let ghost image = frame@;
    assert(len == 4 * image.px.len());
    if acc.len() != len {
        *acc = crate::audio::silence(len);
    }
    let ghost from = acc@;
    let decay: F32 = smear_decay(c, size);
    let ghost fed = smear_fed(c, from, image.px, decay);
    let mut k: usize = 0;
    while k < len
        invariant
            c.sound(),
            k <= len,
            frame.wf(),
            frame@ == image,
            len == 4 * image.px.len(),
            acc@.len() == len,
            from.len() == len,
            fed == smear_fed(c, from, image.px, decay),
            forall|j: int| 0 <= j < k ==> acc@[j] == fed[j],
            forall|j: int| k <= j < len ==> acc@[j] == from[j],
        decreases len - k,
    {
        let p: Rgba = frame.load(k / 4);
        let v: F32 = acc[k].mul(c, decay).add(
            c,
            smear_input(c, p, k % 4).mul(c, single(0x3f80_0000).sub(c, decay)),
        );
        acc.set(k, v);
        k += 1;
    }
    assert(acc@ =~= fed);
    let radius: usize = smear_radius(c, damp);
    if radius > 0 {
        proof {
            assert(frame.width * frame.height * 4 == frame.height * (4 * frame.width))
                by (nonlinear_arith);
            if frame.height == 0 {
                assert(fed =~= box_blurred(c, fed, image.width, image.height, radius as int)) by {
                    assert(0 * (4 * frame.width) == 0);
                }
            } else {
                assert(4 * frame.width <= frame.width * frame.height * 4) by (nonlinear_arith)
                    requires
                        frame.height >= 1,
                ;
            }
        }
        if frame.height > 0 {
            box_blur(c, acc, frame.width as usize, frame.height as usize, radius);
        }
    }
    assert(acc@.len() == len);
    let n: usize = frame.area();
    let ghost first = frame@;
    let ghost size = (frame.width, frame.height);
    let ghost want = smeared(c, first.px, acc@, mix);
    let mut i: usize = 0;
    while i < n
        invariant
            c.sound(),
            i <= n,
            frame.wf(),
            n == first.px.len(),
            frame@.px.len() == n,
            size == (frame.width, frame.height),
            first.width == frame.width,
            first.height == frame.height,
            n == frame.width * frame.height,
            want == smeared(c, first.px, acc@, mix),
            acc@.len() == 4 * n,
            forall|j: int| 0 <= j < i ==> frame@.px[j] == want[j],
            forall|j: int| i <= j < n ==> frame@.px[j] == first.px[j],
        decreases n - i,
    {
        let a: F32 = acc[4 * i + 3];
        let sa: F32 = a.div(c, single(0x437f_0000)).mul(c, mix);
        let px: Rgba = smeared_pixel(
            c,
            frame.load(i),
            acc[4 * i],
            acc[4 * i + 1],
            acc[4 * i + 2],
            a,
            sa,
        );
        frame.store(i, px);
        i += 1;
    }
    assert(frame@.px =~= want);
}

// ----------------------------------------------------------------- compress

/// The 8x8 DCT-II basis: frequency `u` at place `x`.
#[verifier::allow_in_spec]
pub fn dct_basis<K: Fn(Op, Width, u64, u64) -> u64>(c: &Calc<K>, u: u64, x: u64) -> F32
    requires
        c.sound(),
    returns
        ((if u == 0 {
            single(0x3e00_0000)
        } else {
            single(0x3e80_0000)
        }).sqrt(c).mul(
            c,
            single(0x4000_0000).mul(c, F32::of_count(c, x)).add(c, single(0x3f80_0000)).mul(c, F32::of_count(c, u)).mul(
                c,
                single(0x4049_0fdb),
            ).div(c, single(0x4180_0000)).cos(c),
        )),
{
    (if u == 0 {
        single(0x3e00_0000)
    } else {
        single(0x3e80_0000)
    }).sqrt(c).mul(
        c,
        single(0x4000_0000).mul(c, F32::of_count(c, x)).add(c, single(0x3f80_0000)).mul(c, F32::of_count(c, u)).mul(
            c,
            single(0x4049_0fdb),
        ).div(c, single(0x4180_0000)).cos(c),
    )
}

/// The basis as a table: frequency by frequency.
pub open spec fn basis_table<K: Fn(Op, Width, u64, u64) -> u64>(c: &Calc<K>) -> Seq<F32> {
    Seq::new(64, |k: int| dct_basis(c, (k / 8) as u64, (k % 8) as u64))
}

/// 8x8 DCT-II basis as a table: frequency by frequency.
pub fn dct8_basis<K: Fn(Op, Width, u64, u64) -> u64>(c: &Calc<K>) -> (r: Vec<F32>)
    requires
        c.sound(),
    ensures
        r@ == basis_table(c),
{
    let mut b: Vec<F32> = Vec::new();
    let mut k: usize = 0;
    while k < 64
        invariant
            c.sound(),
            k <= 64,
            b@ =~= basis_table(c).take(k as int),
        decreases 64 - k,
    {
        b.push(dct_basis(c, (k / 8) as u64, (k % 8) as u64));
        k += 1;
    }
    b
}

/// Channel `ch` of the 8x8 block at (`bx`, `by`) of an image, around zero; past the
/// edge the last pixel repeats.
pub open spec fn block_of<K: Fn(Op, Width, u64, u64) -> u64>(c: &Calc<K>, image: Image, bx: int, by: int, ch: usize) -> Seq<F32> {
    Seq::new(
        64,
        |k: int|
            F32::of_count(
                c,
                part(
                    image.pixel(
                        least(bx + k % 8, image.width - 1),
                        least(by + k / 8, image.height - 1),
                    ),
                    ch,
                ) as u64,
            ).sub(c, single(0x4300_0000)),
    )
}

/// The first `n` terms of a DCT coefficient.
pub open spec fn forward_sum<K: Fn(Op, Width, u64, u64) -> u64>(c: &Calc<K>, basis: Seq<F32>, block: Seq<F32>, u: int, v: int, n: int) -> F32
    decreases n,
{
    if n <= 0 {
        single(0)
    } else {
        let k = n - 1;
        forward_sum(c, basis, block, u, v, k).add(
            c,
            basis[u * 8 + k / 8].mul(c, block[k]).mul(c, basis[v * 8 + k % 8]),
        )
    }
}

/// The DCT coefficients of a block: basis * block * transposed basis.
pub open spec fn forward_dct<K: Fn(Op, Width, u64, u64) -> u64>(c: &Calc<K>, basis: Seq<F32>, block: Seq<F32>) -> Seq<F32> {
    Seq::new(64, |k: int| forward_sum(c, basis, block, k / 8, k % 8, 64))
}

/// The first `n` terms of a restored value.
pub open spec fn inverse_sum<K: Fn(Op, Width, u64, u64) -> u64>(c: &Calc<K>, basis: Seq<F32>, coef: Seq<F32>, y: int, x: int, n: int) -> F32
    decreases n,
{
    if n <= 0 {
        single(0)
    } else {
        let k = n - 1;
        inverse_sum(c, basis, coef, y, x, k).add(
            c,
            basis[k / 8 * 8 + y].mul(c, coef[k]).mul(c, basis[k % 8 * 8 + x]),
        )
    }
}

/// How many coefficients of a block a quality keeps.
#[verifier::allow_in_spec]
pub fn kept_terms<K: Fn(Op, Width, u64, u64) -> u64>(c: &Calc<K>, q: F32) -> usize
    requires
        c.sound(),
    returns
        (single(0x3f80_0000).add(c, single(0x427c_0000).mul(c, q).mul(c, q)).to_size(c)),
{
    single(0x3f80_0000).add(c, single(0x427c_0000).mul(c, q).mul(c, q)).to_size(c)
}

/// How hard a quality quantizes (perceptual-ish ramp).
#[verifier::allow_in_spec]
pub fn crunch_of<K: Fn(Op, Width, u64, u64) -> u64>(c: &Calc<K>, q: F32) -> F32
    requires
        c.sound(),
    returns
        (single(0x3f80_0000).sub(c, q).mul(c, single(0x3f80_0000).sub(c, q))),
{
    single(0x3f80_0000).sub(c, q).mul(c, single(0x3f80_0000).sub(c, q))
}

/// A coefficient rounded to its step, harsher at higher spatial frequencies.
#[verifier::allow_in_spec]
pub fn quantized<K: Fn(Op, Width, u64, u64) -> u64>(c: &Calc<K>, v: F32, crunch: F32, freq: u64) -> F32
    requires
        c.sound(),
    returns
        (v.div(c, single(0x3f80_0000).add(c, crunch.mul(c, single(0x4100_0000).add(c, single(0x4180_0000).mul(c, F32::of_count(c, freq)))))).round(c).mul(
            c,
            single(0x3f80_0000).add(c, crunch.mul(c, single(0x4100_0000).add(c, single(0x4180_0000).mul(c, F32::of_count(c, freq))))),
        )),
{
    v.div(c, single(0x3f80_0000).add(c, crunch.mul(c, single(0x4100_0000).add(c, single(0x4180_0000).mul(c, F32::of_count(c, freq)))))).round(c).mul(
        c,
        single(0x3f80_0000).add(c, crunch.mul(c, single(0x4100_0000).add(c, single(0x4180_0000).mul(c, F32::of_count(c, freq))))),
    )
}

/// The magnitude at or below which a quality drops a block's coefficients.
pub open spec fn block_threshold(coef: Seq<F32>, keep: int) -> F32 {
    descending(coef.map_values(|v: F32| v.abs()))[least(keep, 63)]
}

/// A block's coefficients with only the strongest kept, quantized.
pub open spec fn thinned_block<K: Fn(Op, Width, u64, u64) -> u64>(c: &Calc<K>, coef: Seq<F32>, q: F32) -> Seq<F32> {
    let keep = kept_terms(c, q);
    Seq::new(
        64,
        |k: int|
            quantized(
                c,
                if keep < 64 && coef[k].abs().le(block_threshold(coef, keep as int)) {
                    single(0)
                } else {
                    coef[k]
                },
                crunch_of(c, q),
                (k / 8 + k % 8) as u64,
            ),
    )
}

/// The crunched coefficients of channel `ch` of the block at (`bx`, `by`).
pub open spec fn block_coefs<K: Fn(Op, Width, u64, u64) -> u64>(c: &Calc<K>, image: Image, q: F32, bx: int, by: int, ch: usize) -> Seq<F32> {
    thinned_block(c, forward_dct(c, basis_table(c), block_of(c, image, bx, by, ch)), q)
}

/// Channel `ch` of pixel (`x`, `y`) after the crunch.
pub open spec fn compressed_part<K: Fn(Op, Width, u64, u64) -> u64>(c: &Calc<K>, image: Image, q: F32, x: int, y: int, ch: usize) -> u8 {
    inverse_sum(
        c,
        basis_table(c),
        block_coefs(c, image, q, x / 8 * 8, y / 8 * 8, ch),
        y % 8,
        x % 8,
        64,
    ).add(c, single(0x4300_0000)).limit(single(0), single(0x437f_0000)).to_u8(c)
}

/// A frame after the crunch; unchanged at full quality.
pub open spec fn compressed<K: Fn(Op, Width, u64, u64) -> u64>(c: &Calc<K>, image: Image, quality: F32) -> Image {
    let q = quality.limit(single(0), single(0x3f80_0000));
    if single(TRANSPARENT).le(q) {
        image
    } else {
        Image {
            px: Seq::new(
                image.px.len(),
                |j: int|
                    Rgba {
                        r: compressed_part(c, image, q, j % image.width, j / image.width, 0),
                        g: compressed_part(c, image, q, j % image.width, j / image.width, 1),
                        b: compressed_part(c, image, q, j % image.width, j / image.width, 2),
                        a: image.px[j].a,
                    },
            ),
            ..image
        }
    }
}

fn load_block<K: Fn(Op, Width, u64, u64) -> u64>(c: &Calc<K>, frame: &Frame, bx: u32, by: u32, ch: usize) -> (r: Vec<F32>)
    requires
        c.sound(),
        frame.wf(),
        bx < frame.width,
        by < frame.height,
    ensures
        r@ == block_of(c, frame@, bx as int, by as int, ch),
{
    let mut out: Vec<F32> = Vec::new();
    let mut k: u32 = 0;
    while k < 64
        invariant
            c.sound(),
            k <= 64,
            frame.wf(),
            bx < frame.width,
            by < frame.height,
            out@ =~= block_of(c, frame@, bx as int, by as int, ch).take(k as int),
        decreases 64 - k,
    {
        let x: u32 = if frame.width - 1 - bx > k % 8 { bx + k % 8 } else { frame.width - 1 };
        let y: u32 = if frame.height - 1 - by > k / 8 { by + k / 8 } else { frame.height - 1 };
        let at: usize = frame.index(x, y);
        out.push(F32::of_count(c, part(frame.load(at), ch) as u64).sub(c, single(0x4300_0000)));
        k += 1;
    }
    out
}

fn forward_term<K: Fn(Op, Width, u64, u64) -> u64>(c: &Calc<K>, basis: &Vec<F32>, block: &Vec<F32>, u: usize, v: usize) -> (r: F32)
    requires
        c.sound(),
        basis@.len() == 64,
        block@.len() == 64,
        u < 8,
        v < 8,
    ensures
        r == forward_sum(c, basis@, block@, u as int, v as int, 64),
{
    let mut s: F32 = single(0);
    let mut k: usize = 0;
    while k < 64
        invariant
            c.sound(),
            basis@.len() == 64,
            block@.len() == 64,
            u < 8,
            v < 8,
            k <= 64,
            s == forward_sum(c, basis@, block@, u as int, v as int, k as int),
        decreases 64 - k,
    {
        s = s.add(c, basis[u * 8 + k / 8].mul(c, block[k]).mul(c, basis[v * 8 + k % 8]));
        k += 1;
    }
    s
}

fn crunch_block<K: Fn(Op, Width, u64, u64) -> u64>(c: &Calc<K>, basis: &Vec<F32>, block: &Vec<F32>, q: F32) -> (r: Vec<F32>)
    requires
        c.sound(),
        basis@ == basis_table(c),
        block@.len() == 64,
    ensures
        r@ == thinned_block(c, forward_dct(c, basis_table(c), block@), q),
{
    let ghost want = forward_dct(c, basis_table(c), block@);
    let mut coef: Vec<F32> = Vec::new();
    let mut mags: Vec<F32> = Vec::new();
    let mut k: usize = 0;
    while k < 64
        invariant
            c.sound(),
            k <= 64,
            basis@ == basis_table(c),
            block@.len() == 64,
            want == forward_dct(c, basis_table(c), block@),
            coef@ =~= want.take(k as int),
            mags@ =~= want.map_values(|v: F32| v.abs()).take(k as int),
        decreases 64 - k,
    {
        let v: F32 = forward_term(c, basis, block, k / 8, k % 8);
        coef.push(v);
        mags.push(v.abs());
        k += 1;
    }
    assert(coef@ =~= want);
    assert(mags@ =~= want.map_values(|v: F32| v.abs()));
    let keep: usize = kept_terms(c, q);
    let sorted: Vec<F32> = sort_descending(&mags);
    let threshold: F32 = sorted[if keep < 63 { keep } else { 63 }];
    let crunch: F32 = crunch_of(c, q);
    let mut out: Vec<F32> = Vec::new();
    let mut m: usize = 0;
    while m < 64
        invariant
            c.sound(),
            m <= 64,
            coef@ == want,
            want.len() == 64,
            keep == kept_terms(c, q),
            threshold == block_threshold(want, keep as int),
            crunch == crunch_of(c, q),
            out@ =~= thinned_block(c, want, q).take(m as int),
        decreases 64 - m,
    {
        let v: F32 = if keep < 64 && coef[m].abs().le(threshold) { single(0) } else { coef[m] };
        out.push(quantized(c, v, crunch, (m / 8 + m % 8) as u64));
        m += 1;
    }
    out
}

fn restore<K: Fn(Op, Width, u64, u64) -> u64>(c: &Calc<K>, basis: &Vec<F32>, coef: &Vec<F32>, y: usize, x: usize) -> (r: u8)
    requires
        c.sound(),
        basis@.len() == 64,
        coef@.len() == 64,
        y < 8,
        x < 8,
    ensures
        r == inverse_sum(c, basis@, coef@, y as int, x as int, 64).add(c, single(0x4300_0000)).limit(
            single(0),
            single(0x437f_0000),
        ).to_u8(c),
{
    let mut s: F32 = single(0);
    let mut k: usize = 0;
    while k < 64
        invariant
            c.sound(),
            basis@.len() == 64,
            coef@.len() == 64,
            y < 8,
            x < 8,
            k <= 64,
            s == inverse_sum(c, basis@, coef@, y as int, x as int, k as int),
        decreases 64 - k,
    {
        s = s.add(c, basis[k / 8 * 8 + y].mul(c, coef[k]).mul(c, basis[k % 8 * 8 + x]));
        k += 1;
    }
    s.add(c, single(0x4300_0000)).limit(single(0), single(0x437f_0000)).to_u8(c)
}

/// Whether `table` holds the crunched coefficients of the first blocks of an image,
/// three channels each, in rows of `bw` blocks.
pub open spec fn holds_blocks<K: Fn(Op, Width, u64, u64) -> u64>(c: &Calc<K>, image: Image, q: F32, bw: int, table: Seq<Vec<F32>>) -> bool {
    forall|t: int|
        0 <= t < table.len() ==> (#[trigger] table[t])@ == block_coefs(
            c,
            image,
            q,
            t / 3 % bw * 8,
            t / 3 / bw * 8,
            (t % 3) as usize,
        )
}

fn all_blocks<K: Fn(Op, Width, u64, u64) -> u64>(c: &Calc<K>, frame: &Frame, basis: &Vec<F32>, q: F32, bw: u32, bh: u32) -> (r: Vec<Vec<F32>>)
    requires
        c.sound(),
        frame.wf(),
        basis@ == basis_table(c),
        bw == (frame.width + 7) / 8,
        bh == (frame.height + 7) / 8,
        bw * bh <= u32::MAX,
    ensures
        r@.len() == 3 * (bw * bh),
        holds_blocks(c, frame@, q, bw as int, r@),
{
    let n: u32 = bw * bh;
    let mut table: Vec<Vec<F32>> = Vec::new();
    let mut b: u32 = 0;
    while b < n
        invariant
            c.sound(),
            b <= n,
            n == bw * bh,
            frame.wf(),
            basis@ == basis_table(c),
            bw == (frame.width + 7) / 8,
            bh == (frame.height + 7) / 8,
            table@.len() == 3 * b,
            holds_blocks(c, frame@, q, bw as int, table@),
        decreases n - b,
    {
        proof {
            lemma_place(bw as int, bh as int, b as int);
        }
        let bx: u32 = b % bw * 8;
        let by: u32 = b / bw * 8;
        let mut ch: usize = 0;
        while ch < 3
            invariant
                c.sound(),
                ch <= 3,
                b < n,
                bw > 0,
                frame.wf(),
                basis@ == basis_table(c),
                bx == b as int % bw as int * 8,
                by == b as int / bw as int * 8,
                bx < frame.width,
                by < frame.height,
                table@.len() == 3 * b + ch,
                holds_blocks(c, frame@, q, bw as int, table@),
            decreases 3 - ch,
        {
            let block: Vec<F32> = load_block(c, frame, bx, by, ch);
            let coefs: Vec<F32> = crunch_block(c, basis, &block, q);
            assert((3 * b + ch) / 3 == b && (3 * b + ch) % 3 == ch as int);
            table.push(coefs);
            ch += 1;
        }
        b += 1;
    }
    table
}

proof fn lemma_block_place(x: int, y: int, w: int, h: int, ch: int)
    requires
        0 <= x < w,
        0 <= y < h,
        0 <= ch < 3,
    ensures
        ({
            let bw = (w + 7) / 8;
            let bh = (h + 7) / 8;
            let t = 3 * (y / 8 * bw + x / 8) + ch;
            &&& 0 <= y / 8 * bw + x / 8 < bw * bh
            &&& t / 3 % bw == x / 8
            &&& t / 3 / bw == y / 8
            &&& t % 3 == ch
        }),
{
    let bw = (w + 7) / 8;
    let bh = (h + 7) / 8;
    assert(x / 8 < bw);
    assert(y / 8 < bh);
    lemma_index(bw, bh, x / 8, y / 8);
    let b = y / 8 * bw + x / 8;
    assert(0 <= y / 8 * bw) by (nonlinear_arith)
        requires
            0 <= y / 8,
            0 <= bw,
    ;
    assert((3 * b + ch) / 3 == b);
    vstd::arithmetic::div_mod::lemma_fundamental_div_mod_converse(b, bw, y / 8, x / 8);
}

/// JPEG-style crunch: per 8x8 block per channel, DCT -> quantize with a
/// frequency-weighted step (coarser for high frequencies) -> inverse DCT.
#[verifier::rlimit(40)]
fn video_compress<K: Fn(Op, Width, u64, u64) -> u64>(c: &Calc<K>, frame: &mut Frame, quality: F32)
    requires
        c.sound(),
        old(frame).wf(),
    ensures
        final(frame).wf(),
        final(frame).width == old(frame).width,
        final(frame).height == old(frame).height,
        final(frame)@ == compressed(c, old(frame)@, quality),
{
    let q: F32 = quality.limit(single(0), single(0x3f80_0000));
    if single(TRANSPARENT).le(q) {
        return;
    }
    let n: usize = frame.area();
    let ghost first = frame@;
    let ghost size = (frame.width, frame.height);
    let ghost want = compressed(c, first, quality).px;
    if n == 0 {
        assert(frame@.px =~= want);
        return;
    }
    let w: u32 = frame.width;
    let h: u32 = frame.height;
    proof {
        assert(w >= 1 && h >= 1 && w <= w * h && h <= w * h) by (nonlinear_arith)
            requires
                w * h > 0,
                w >= 0,
                h >= 0,
        ;
    }
    let bw: u32 = (w + 7) / 8;
    let bh: u32 = (h + 7) / 8;
    proof {
        assert(bw <= w && bh <= h);
        assert(bw * bh <= w * h) by (nonlinear_arith)
            requires
                0 <= bw <= w,
                0 <= bh <= h,
        ;
    }
    let basis: Vec<F32> = dct8_basis(c);
    let table: Vec<Vec<F32>> = all_blocks(c, frame, &basis, q, bw, bh);
    let mut i: usize = 0;
    while i < n
        invariant
            c.sound(),
            i <= n,
            frame.wf(),
            n == first.px.len(),
            frame@.px.len() == n,
            size == (frame.width, frame.height),
            size == (w, h),
            first.width == w,
            first.height == h,
            n == w * h,
            bw == (w + 7) / 8,
            bh == (h + 7) / 8,
            basis@ == basis_table(c),
            table@.len() == 3 * (bw * bh),
            table.len() == table@.len(),
            holds_blocks(c, first, q, bw as int, table@),
            q == quality.limit(single(0), single(0x3f80_0000)),
            !single(TRANSPARENT).le(q),
            want == compressed(c, first, quality).px,
            forall|j: int| 0 <= j < i ==> frame@.px[j] == want[j],
            forall|j: int| i <= j < n ==> frame@.px[j] == first.px[j],
        decreases n - i,
    {
        let x: usize = i % w as usize;
        let y: usize = i / w as usize;
        proof {
            lemma_place(w as int, h as int, i as int);
            lemma_block_place(x as int, y as int, w as int, h as int, 0);
            lemma_block_place(x as int, y as int, w as int, h as int, 1);
            lemma_block_place(x as int, y as int, w as int, h as int, 2);
            assert(0 <= y / 8 * bw) by (nonlinear_arith)
                requires
                    0 <= y / 8,
                    0 <= bw,
            ;
        }
        let t: usize = 3 * (y / 8 * bw as usize + x / 8);
        let p: Rgba = frame.load(i);
        assert(table@[t as int]@.len() == 64);
        let px: Rgba = Rgba {
            r: restore(c, &basis, &table[t], y % 8, x % 8),
            g: restore(c, &basis, &table[t + 1], y % 8, x % 8),
            b: restore(c, &basis, &table[t + 2], y % 8, x % 8),
            a: p.a,
        };
        frame.store(i, px);
        i += 1;
    }
    assert(frame@.px =~= want);
}

// ------------------------------------------------------------------- chains

/// Per-effect temporal state for video processing (delay ghosts, reverb
/// persistence). One state per effect instance per rendered clip/master.
#[derive(Debug)]
pub enum VideoFxState {
    Stateless,
    Delay { ring: VecDeque<Frame>, delay_frames: usize },
    Reverb { acc: Vec<F32> },
}

/// What an effect's state holds.
pub enum VideoFxView {
    Stateless,
    Delay { ring: Seq<Image>, delay_frames: int },
    Reverb { acc: Seq<F32> },
}

impl View for VideoFxState {
    type V = VideoFxView;

    open spec fn view(&self) -> VideoFxView {
        match *self {
            VideoFxState::Stateless => VideoFxView::Stateless,
            VideoFxState::Delay { ring, delay_frames } => VideoFxView::Delay {
                ring: images(ring@),
                delay_frames: delay_frames as int,
            },
            VideoFxState::Reverb { acc } => VideoFxView::Reverb { acc: acc@ },
        }
    }
}

impl VideoFxState {
    /// Every frame kept is whole, and a delay lasts at least one frame.
    pub open spec fn wf(self) -> bool {
        match self {
            VideoFxState::Delay { ring, delay_frames } => frames_wf(ring@) && delay_frames > 0,
            _ => true,
        }
    }
}

/// How many frames a delay lasts: at least one.
#[verifier::allow_in_spec]
pub fn echo_frames<K: Fn(Op, Width, u64, u64) -> u64>(c: &Calc<K>, time: F32, fps: F32) -> usize
    requires
        c.sound(),
    returns
        (if time.mul(c, fps).round(c).to_size(c) < 1 {
            1
        } else {
            time.mul(c, fps).round(c).to_size(c)
        }),
{
    if time.mul(c, fps).round(c).to_size(c) < 1 {
        1
    } else {
        time.mul(c, fps).round(c).to_size(c)
    }
}

/// The state that an effect starts with.
pub open spec fn fresh_video_state<K: Fn(Op, Width, u64, u64) -> u64>(c: &Calc<K>, kind: EffectKind, fps: F32) -> VideoFxView {
    match kind {
        EffectKind::Delay { time, .. } => VideoFxView::Delay {
            ring: Seq::empty(),
            delay_frames: echo_frames(c, time, fps) as int,
        },
        EffectKind::Reverb { .. } => VideoFxView::Reverb { acc: Seq::empty() },
        _ => VideoFxView::Stateless,
    }
}

/// What a run of states holds.
pub open spec fn video_states_view(states: Seq<VideoFxState>) -> Seq<VideoFxView> {
    states.map_values(|s: VideoFxState| s@)
}

/// Whether every state is in order.
pub open spec fn video_states_wf(states: Seq<VideoFxState>) -> bool {
    forall|i: int| 0 <= i < states.len() ==> (#[trigger] states[i]).wf()
}

/// The states that a chain starts with.
pub open spec fn fresh_video_states<K: Fn(Op, Width, u64, u64) -> u64>(c: &Calc<K>, chain: Seq<AvEffect>, fps: F32) -> Seq<VideoFxView> {
    chain.map_values(|fx: AvEffect| fresh_video_state(c, fx.kind, fps))
}

fn make_video_state<K: Fn(Op, Width, u64, u64) -> u64>(c: &Calc<K>, kind: EffectKind, fps: F32) -> (r: VideoFxState)
    requires
        c.sound(),
    ensures
        r.wf(),
        r@ == fresh_video_state(c, kind, fps),
{
    match kind {
        EffectKind::Delay { time, .. } => {
            let ring: VecDeque<Frame> = VecDeque::new();
            assert(images(ring@) =~= Seq::empty());
            VideoFxState::Delay { ring, delay_frames: echo_frames(c, time, fps) }
        },
        EffectKind::Reverb { .. } => VideoFxState::Reverb { acc: Vec::new() },
        _ => VideoFxState::Stateless,
    }
}

/// Build the state vector for a chain.
pub fn video_chain_states<K: Fn(Op, Width, u64, u64) -> u64>(c: &Calc<K>, chain: &Vec<AvEffect>, fps: F32) -> (r: Vec<VideoFxState>)
    requires
        c.sound(),
    ensures
        video_states_wf(r@),
        video_states_view(r@) == fresh_video_states(c, chain@, fps),
{
    let mut out: Vec<VideoFxState> = Vec::new();
    let mut i: usize = 0;
    while i < chain.len()
        invariant
            c.sound(),
            i <= chain@.len(),
            video_states_wf(out@),
            video_states_view(out@) =~= fresh_video_states(c, chain@, fps).take(i as int),
        decreases chain.len() - i,
    {
        let s: VideoFxState = make_video_state(c, chain[i].kind, fps);
        let ghost before = out@;
        out.push(s);
        assert(video_states_view(out@) =~= video_states_view(before).push(s@));
        i += 1;
    }
    out
}

/// The block size of a crusher at an amount.
#[verifier::allow_in_spec]
pub fn pixel_factor<K: Fn(Op, Width, u64, u64) -> u64>(c: &Calc<K>, downsample: F32, amount: F32) -> u32
    requires
        c.sound(),
    returns
        (if lerp(c, single(0x3f80_0000), downsample, amount).round(c).to_u32(c) < 1 {
            1
        } else {
            lerp(c, single(0x3f80_0000), downsample, amount).round(c).to_u32(c)
        }),
{
    if lerp(c, single(0x3f80_0000), downsample, amount).round(c).to_u32(c) < 1 {
        1
    } else {
        lerp(c, single(0x3f80_0000), downsample, amount).round(c).to_u32(c)
    }
}

/// The color levels of a crusher at an amount.
#[verifier::allow_in_spec]
pub fn colour_levels<K: Fn(Op, Width, u64, u64) -> u64>(c: &Calc<K>, bits: F32, amount: F32) -> F32
    requires
        c.sound(),
    returns
        (single(0x4000_0000).pow(c, lerp(c, single(0x4100_0000), bits.limit(single(0x3f80_0000), single(0x4100_0000)), amount))),
{
    single(0x4000_0000).pow(c, lerp(c, single(0x4100_0000), bits.limit(single(0x3f80_0000), single(0x4100_0000)), amount))
}

/// What an effect makes of a frame. Bypassed, a delay still records history so that
/// enabling it mid-stream behaves.
#[verifier::opaque]
pub open spec fn effect_frame<K: Fn(Op, Width, u64, u64) -> u64>(c: &Calc<K>, fx: AvEffect, s: VideoFxView, image: Image) -> (VideoFxView, Image) {
    if fx.video.le(single(BYPASS)) {
        match s {
            VideoFxView::Delay { ring, delay_frames } => (
                VideoFxView::Delay { ring: latest(ring.push(image), delay_frames), delay_frames },
                image,
            ),
            _ => (s, image),
        }
    } else {
        match (fx.kind, s) {
            (EffectKind::Crush { downsample, bits }, _) => (
                s,
                crushed_image(
                    c,
                    image,
                    pixel_factor(c, downsample, fx.video) as int,
                    colour_levels(c, bits, fx.video),
                ),
            ),
            (
                EffectKind::Delay { feedback, mix, shift_x, shift_y, .. },
                VideoFxView::Delay { ring, delay_frames },
            ) => {
                let out = echoed(
                    c,
                    ring,
                    delay_frames,
                    mix.mul(c, fx.video),
                    shift_x,
                    shift_y,
                    image,
                );
                (
                    VideoFxView::Delay {
                        ring: kept_ring(c, ring, delay_frames, feedback, out),
                        delay_frames,
                    },
                    out,
                )
            },
            (EffectKind::Reverb { size, damp, mix }, VideoFxView::Reverb { acc }) => {
                let after = smear_after(c, acc, image, size, damp);
                (
                    VideoFxView::Reverb { acc: after },
                    Image { px: smeared(c, image.px, after, mix.mul(c, fx.video)), ..image },
                )
            },
            (EffectKind::Compress { quality }, _) => (
                s,
                compressed(c, image, lerp(c, single(0x3f80_0000), quality, fx.video)),
            ),
            _ => (s, image),
        }
    }
}

/// Whether the frames that a state kept are at least as large as an image.
pub open spec fn state_covers(s: VideoFxView, image: Image) -> bool {
    match s {
        VideoFxView::Delay { ring, delay_frames } => 0 <= delay_frames && frames_cover(ring, image),
        _ => true,
    }
}

/// Whether the frames that the states kept are at least as large as an image.
pub open spec fn states_cover(states: Seq<VideoFxView>, image: Image) -> bool {
    forall|i: int| 0 <= i < states.len() ==> state_covers(#[trigger] states[i], image)
}

/// What the first `n` effects of a chain make of a frame.
pub open spec fn chain_frame<K: Fn(Op, Width, u64, u64) -> u64>(c: &Calc<K>, chain: Seq<AvEffect>, states: Seq<VideoFxView>, image: Image, n: int) -> (Seq<VideoFxView>, Image)
    decreases n,
{
    if n <= 0 {
        (states, image)
    } else {
        let (s, f) = chain_frame(c, chain, states, image, n - 1);
        let (t, g) = effect_frame(c, chain[n - 1], s[n - 1], f);
        (s.update(n - 1, t), g)
    }
}

/// An effect keeps a frame's size, and what it keeps covers the frame.
pub proof fn law_video_effects_keep_size<K: Fn(Op, Width, u64, u64) -> u64>(c: &Calc<K>, fx: AvEffect, s: VideoFxView, image: Image)
    requires
        image.px.len() == image.width * image.height,
    ensures
        ({
            let (t, f) = effect_frame(c, fx, s, image);
            &&& f.width == image.width
            &&& f.height == image.height
            &&& f.px.len() == image.px.len()
            &&& state_covers(s, image) ==> state_covers(t, image)
        }),
{
    reveal(effect_frame);
    let (t, f) = effect_frame(c, fx, s, image);
    if fx.video.le(single(BYPASS)) {
        if let VideoFxView::Delay { ring, delay_frames } = s {
            if 0 <= delay_frames {
                lemma_latest_covers(ring, image, delay_frames, image);
            }
        }
    } else {
        match (fx.kind, s) {
            (EffectKind::Crush { .. }, _) => {
                assert(t == s);
            },
            (
                EffectKind::Delay { feedback, mix, shift_x, shift_y, .. },
                VideoFxView::Delay { ring, delay_frames },
            ) => {
                let kept = Image {
                    px: f.px.map_values(|p: Rgba| kept_pixel(c, p, feedback)),
                    ..f
                };
                assert(f == echoed(
                    c,
                    ring,
                    delay_frames,
                    mix.mul(c, fx.video),
                    shift_x,
                    shift_y,
                    image,
                ));
                if 0 <= delay_frames {
                    lemma_latest_covers(ring, kept, delay_frames, image);
                }
            },
            (EffectKind::Reverb { .. }, VideoFxView::Reverb { .. }) => {
                assert(t is Reverb);
            },
            _ => {
                assert(t == s);
            },
        }
    }
}

proof fn lemma_latest_covers(ring: Seq<Image>, last: Image, n: int, image: Image)
    requires
        last.width == image.width,
        last.height == image.height,
        0 <= n,
    ensures
        frames_cover(ring, image) ==> frames_cover(latest(ring.push(last), n), image),
{
    let all = ring.push(last);
    let kept = latest(all, n);
    if frames_cover(ring, image) {
        assert(frames_cover(all, image));
        assert forall|i: int| 0 <= i < kept.len() implies (#[trigger] kept[i]).width >= image.width
            && kept[i].height >= image.height by {
            if all.len() > n {
                assert(kept[i] == all[i + (all.len() - n)]);
            }
        }
    }
}

/// An effect whose video dial is at zero leaves the frame as it is.
pub proof fn law_video_dial_bypasses<K: Fn(Op, Width, u64, u64) -> u64>(c: &Calc<K>, fx: AvEffect, s: VideoFxView, image: Image)
    requires
        fx.video.le(single(BYPASS)),
    ensures
        effect_frame(c, fx, s, image).1 == image,
{
    reveal(effect_frame);
}

/// Full quality leaves the frame as it is.
pub proof fn law_full_quality_is_transparent<K: Fn(Op, Width, u64, u64) -> u64>(c: &Calc<K>, image: Image)
    ensures
        compressed(c, image, single(0x3f80_0000)) == image,
{
}

fn process_frame<K: Fn(Op, Width, u64, u64) -> u64>(c: &Calc<K>, fx: AvEffect, state: &mut VideoFxState, frame: &mut Frame)
    requires
        c.sound(),
        old(frame).wf(),
        old(state).wf(),
        state_covers(old(state)@, old(frame)@),
    ensures
        final(frame).wf(),
        final(frame).width == old(frame).width,
        final(frame).height == old(frame).height,
        final(state).wf(),
        (final(state)@, final(frame)@) == effect_frame(c, fx, old(state)@, old(frame)@),
{
    proof {
        reveal(effect_frame);
    }
    if fx.video.le(single(BYPASS)) {
        if let VideoFxState::Delay { ring, delay_frames } = state {
            let ghost before = ring@;
            let copy: Frame = frame.clone();
            assert(copy@ == frame@);
            ring.push_back(copy);
            assert(images(ring@) =~= images(before).push(frame@));
            trim_ring(ring, *delay_frames);
        }
        return;
    }
    match fx.kind {
        EffectKind::Crush { downsample, bits } => {
            let factor: u32 = pixel_factor(c, downsample, fx.video);
            video_crush(c, frame, factor, colour_levels(c, bits, fx.video));
        },
        EffectKind::Delay { feedback, mix, shift_x, shift_y, .. } => {
            if let VideoFxState::Delay { ring, delay_frames } = state {
                let m: F32 = mix.mul(c, fx.video);
                video_delay(c, frame, ring, *delay_frames, feedback, m, shift_x, shift_y);
            }
        },
        EffectKind::Reverb { size, damp, mix } => {
            if let VideoFxState::Reverb { acc } = state {
                video_reverb(c, frame, acc, size, damp, mix.mul(c, fx.video));
            }
        },
        EffectKind::Compress { quality } => {
            video_compress(c, frame, lerp(c, single(0x3f80_0000), quality, fx.video));
        },
    }
}

proof fn lemma_chain_frame<K: Fn(Op, Width, u64, u64) -> u64>(c: &Calc<K>, chain: Seq<AvEffect>, states: Seq<VideoFxView>, image: Image, n: int)
    requires
        image.px.len() == image.width * image.height,
        states_cover(states, image),
        0 <= n <= chain.len(),
        n <= states.len(),
    ensures
        ({
            let (s, f) = chain_frame(c, chain, states, image, n);
            &&& f.width == image.width
            &&& f.height == image.height
            &&& f.px.len() == image.px.len()
            &&& s.len() == states.len()
            &&& states_cover(s, image)
        }),
    decreases n,
{
    if n > 0 {
        lemma_chain_frame(c, chain, states, image, n - 1);
        let (s, f) = chain_frame(c, chain, states, image, n - 1);
        assert(state_covers(s[n - 1], f));
        law_video_effects_keep_size(c, chain[n - 1], s[n - 1], f);
    }
}

/// Process one frame (or layer) through the whole chain. Call once per
/// output frame, in order.
pub fn apply_video_chain<K: Fn(Op, Width, u64, u64) -> u64>(c: &Calc<K>, frame: &mut Frame, chain: &Vec<AvEffect>, states: &mut Vec<VideoFxState>)
    requires
        c.sound(),
        old(frame).wf(),
        video_states_wf(old(states)@),
        states_cover(video_states_view(old(states)@), old(frame)@),
    ensures
        final(frame).wf(),
        final(frame).width == old(frame).width,
        final(frame).height == old(frame).height,
        final(states)@.len() == old(states)@.len(),
        video_states_wf(final(states)@),
        states_cover(video_states_view(final(states)@), final(frame)@),
        (video_states_view(final(states)@), final(frame)@) == chain_frame(
            c,
            chain@,
            video_states_view(old(states)@),
            old(frame)@,
            least(chain@.len() as int, old(states)@.len() as int),
        ),
{
    let ghost first = video_states_view(states@);
    let ghost image = frame@;
    let ghost size = (frame.width, frame.height);
    let n: usize = if chain.len() < states.len() { chain.len() } else { states.len() };
    let mut i: usize = 0;
    while i < n
        invariant
            c.sound(),
            i <= n,
            n == least(chain@.len() as int, first.len() as int),
            states@.len() == first.len(),
            frame.wf(),
            size == (frame.width, frame.height),
            image.width == frame.width,
            image.height == frame.height,
            image.px.len() == image.width * image.height,
            video_states_wf(states@),
            states_cover(first, image),
            (video_states_view(states@), frame@) == chain_frame(c, chain@, first, image, i as int),
        decreases n - i,
    {
        proof {
            lemma_chain_frame(c, chain@, first, image, i as int);
            assert(state_covers(video_states_view(states@)[i as int], image));
            assert(video_states_view(states@)[i as int] == states@[i as int]@);
        }
        let ghost before = states@;
        process_frame(c, chain[i], &mut states[i], frame);
        assert(video_states_view(states@) =~= video_states_view(before).update(
            i as int,
            states@[i as int]@,
        ));
        i += 1;
    }
    proof {
        lemma_chain_frame(c, chain@, first, image, n as int);
        assert forall|k: int| 0 <= k < states@.len() implies state_covers(
            #[trigger] video_states_view(states@)[k],
            frame@,
        ) by {
            assert(state_covers(video_states_view(states@)[k], image));
        }
    }
}

} // verus!
