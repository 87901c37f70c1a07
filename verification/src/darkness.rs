//! What nothing shows: black out of black through the picture side of a project, with
//! arithmetic that rounds to nearest.
use crate::calc::{Calc, Op, Width};
use crate::fx::{lerp, AvEffect, EffectKind, BYPASS, TRANSPARENT};
use crate::fx_video::{
    block_corner, box_blurred, chain_frame, colour_levels, column_line, crushed_image, drift, echoed, effect_frame,
    fresh_video_state, fresh_video_states, ghost_channel, ghosted_pixel, head_sum, kept_pixel, kept_ring, latest, least,
    lemma_block_corner, line_blurred, pixel_factor, pixelated, poster_pixel, posterized, row_line, rows_blurred,
    sliding, smear_after, smear_colour, smear_decay, smear_fed, smear_input, smear_radius, smeared, smeared_pixel,
    under_alpha, under_channel, VideoFxView,
};
use crate::masks::{lemma_channel, lemma_ones, lemma_small_pattern};
use crate::num::{law_single_order_is_numeric, single, single_value, F32, F64};
use crate::render::{
    active, clear, clip_layer, frame_time, fresh_track, master_frames, project_shown, time_beat, track_frame,
    track_frames, track_layer, tracks_shown, PlanView, TrackStates,
};
use crate::rounding::{
    apart, lemma_add, lemma_add_small, lemma_div, lemma_exact, lemma_largest, lemma_mul_small, lemma_of_count,
    lemma_reached, lemma_small_rounded, lemma_sub, lemma_sub_small, one, rounds, small,
};
use crate::stillness::{lemma_nil, lemma_nil_over, lemma_nil_round, lemma_nil_times, lemma_nils, nil, silent};
use crate::timeline::{level_opacity, Project};
use crate::video::{
    channel, law_faint_layers_change_nothing, layer_weight, layers_stacked, lemma_index, plain, Image, Rgba, FAINT,
};
use vstd::arithmetic::power2::{lemma2_to64, lemma_pow2_adds, lemma_pow2_pos, lemma_pow2_strictly_increases, pow2};
use vstd::prelude::*;

verus! {

/// Whether a pixel has no colour, and where asked no alpha either.
pub open spec fn unlit(p: Rgba, bare: bool) -> bool {
    p.r == 0 && p.g == 0 && p.b == 0 && (bare ==> p.a == 0)
}

/// Whether an image of `w` by `h` has no colour anywhere.
pub open spec fn unlit_image(f: Image, w: int, h: int, bare: bool) -> bool {
    &&& f.width == w
    &&& f.height == h
    &&& f.px.len() == w * h
    &&& forall|i: int| 0 <= i < f.px.len() ==> unlit(#[trigger] f.px[i], bare)
}

/// Whether a smear holds no colour.
pub open spec fn unlit_smear(acc: Seq<F32>, bare: bool) -> bool {
    forall|i: int| 0 <= i < acc.len() && (bare || i % 4 < 3) ==> nil(#[trigger] acc[i])
}

/// Whether what an effect keeps has no colour.
pub open spec fn unlit_state(s: VideoFxView, w: int, h: int, bare: bool) -> bool {
    match s {
        VideoFxView::Delay { ring, delay_frames } => delay_frames >= 1 && forall|i: int|
            0 <= i < ring.len() ==> unlit_image(#[trigger] ring[i], w, h, bare),
        VideoFxView::Reverb { acc } => unlit_smear(acc, bare),
        VideoFxView::Stateless => true,
    }
}

/// Whether a smear's alphas are numbers of moderate size.
pub open spec fn smear_is_moderate(s: VideoFxView) -> bool {
    match s {
        VideoFxView::Reverb { acc } => forall|i: int| 0 <= i < acc.len() ==> small(#[trigger] acc[i], 40),
        _ => true,
    }
}

/// Whether an effect's picture side is off, or one that crushes, echoes or smears by
/// numbers of moderate size.
pub open spec fn steady_picture<K: Fn(Op, Width, u64, u64) -> u64>(c: &Calc<K>, fx: AvEffect) -> bool {
    fx.video.le(single(BYPASS)) || match fx.kind {
        EffectKind::Crush { downsample, bits } => colour_levels(c, bits, fx.video).finite() && pixel_factor(
            c,
            downsample,
            fx.video,
        ) > 0,
        EffectKind::Delay { feedback, mix, .. } => feedback.finite() && small(mix.mul(c, fx.video), 40),
        EffectKind::Reverb { size, damp, mix } => size.finite() && damp.finite() && small(mix.mul(c, fx.video), 40),
        EffectKind::Compress { quality } => single(TRANSPARENT).le(
            lerp(c, single(0x3f80_0000), quality, fx.video).limit(single(0), single(0x3f80_0000)),
        ),
    }
}

// ------------------------------------------------------------------- pixels

proof fn lemma_no_count<K: Fn(Op, Width, u64, u64) -> u64>(c: &Calc<K>)
    requires
        rounds(c),
    ensures
        nil(F32::of_count(c, 0)),
        nil(channel(c, 0)),
{
    lemma_of_count(c, 0);
    let z = F32::of_count(c, 0);
    let zero = F32 { bits: 0 };
    assert(single_value(0) == 0);
    assert(0 * one() == 0) by (nonlinear_arith);
    lemma_exact(z, 0, 1, zero);
    lemma_nil(z);
    law_single_order_is_numeric(zero, single(0x437f_0000));
    lemma_nil_over(c, z, single(0x437f_0000));
}

proof fn lemma_nil_byte<K: Fn(Op, Width, u64, u64) -> u64>(c: &Calc<K>, z: F32)
    requires
        rounds(c),
        nil(z),
    ensures
        z.to_u8(c) == 0,
{
    reveal(rounds);
    lemma_nil(z);
    lemma_pow2_pos(149);
    assert(0int % one() == 0 && 0int / one() == 0) by (nonlinear_arith)
        requires
            one() > 0,
    ;
    assert(z.to_int(c) == 0);
}

proof fn lemma_posterized<K: Fn(Op, Width, u64, u64) -> u64>(c: &Calc<K>, levels: F32)
    requires
        rounds(c),
        levels.finite(),
    ensures
        posterized(c, 0, levels) == 0,
{
    lemma_ones();
    lemma_no_count(c);
    let unit = single(0x3f80_0000);
    lemma_largest(levels);
    lemma_sub(c, levels, unit);
    let n = levels.sub(c, unit).max(unit);
    law_single_order_is_numeric(unit, n);
    let z = channel(c, 0);
    lemma_nil_times(c, z, n);
    lemma_nil_round(c, z.mul(c, n));
    lemma_nil_over(c, z.mul(c, n).round(c), n);
    let q = z.mul(c, n).round(c).div(c, n);
    lemma_nil_times(c, q, single(0x437f_0000));
    lemma_nil_byte(c, q.mul(c, single(0x437f_0000)));
}

/// One channel of black with a black ghost.
proof fn lemma_ghost_channel<K: Fn(Op, Width, u64, u64) -> u64>(c: &Calc<K>, g: F32, ga: F32, a: u8)
    requires
        rounds(c),
        nil(g),
        small(ga, 80),
    ensures
        ghost_channel(c, g, 0, ga, channel(c, a), under_alpha(c, channel(c, a), ga)) == 0,
{
    lemma_ones();
    lemma_no_count(c);
    lemma_channel(c, a);
    let (unit, da) = (single(0x3f80_0000), channel(c, a));
    lemma_sub_small(c, unit, da, 0);
    let rest = unit.sub(c, da);
    lemma_mul_small(c, ga, 80, rest, 1);
    lemma_pow2_strictly_increases(149, 230);
    lemma_add_small(c, da, ga.mul(c, rest), 81);
    let out = under_alpha(c, da, ga);
    law_single_order_is_numeric(single(0), out);
    let d = F32::of_count(c, 0);
    lemma_nil_times(c, d, da);
    lemma_nil_times(c, g, ga);
    lemma_nil_times(c, g.mul(c, ga), rest);
    lemma_nils(c, d.mul(c, da), g.mul(c, ga).mul(c, rest));
    lemma_nil_over(c, d.mul(c, da).add(c, g.mul(c, ga).mul(c, rest)), out);
    let under = under_channel(c, g, 0, ga, da, out);
    assert(nil(under));
    law_single_order_is_numeric(single(0), single(0x437f_0000));
    lemma_nil_over(c, under, single(0x437f_0000));
    let part = under.div(c, single(0x437f_0000));
    lemma_nil(part);
    lemma_pow2_pos(149);
    lemma_sub_small(c, unit, part, 0);
    lemma_nil_times(c, g.mul(c, ga), da);
    lemma_nil_times(c, g.mul(c, ga).mul(c, da), unit.sub(c, part));
    lemma_nils(c, under, g.mul(c, ga).mul(c, da).mul(c, unit.sub(c, part)));
    let sum = under.add(c, g.mul(c, ga).mul(c, da).mul(c, unit.sub(c, part)));
    assert(sum.min(single(0x437f_0000)) == sum);
    lemma_nil_byte(c, sum);
}

/// A weight of nothing is too faint to count.
proof fn lemma_faint(z: F32)
    requires
        nil(z),
    ensures
        z.le(single(FAINT)),
        z.le(single(0x3b83_126f)),
{
}

proof fn lemma_ghosted_pixel<K: Fn(Op, Width, u64, u64) -> u64>(c: &Calc<K>, d: Rgba, g: Rgba, mix: F32, bare: bool)
    requires
        rounds(c),
        unlit(d, bare),
        unlit(g, bare),
        small(mix, 40),
    ensures
        unlit(ghosted_pixel(c, d, g, channel(c, g.a).mul(c, mix)), bare),
{
    lemma_no_count(c);
    lemma_channel(c, g.a);
    let ga = channel(c, g.a).mul(c, mix);
    lemma_mul_small(c, channel(c, g.a), 0, mix, 40);
    lemma_pow2_strictly_increases(189, 229);
    if bare {
        lemma_nil_times(c, channel(c, g.a), mix);
        lemma_faint(ga);
    } else {
        lemma_ghost_channel(c, F32::of_count(c, 0), ga, d.a);
    }
}

proof fn lemma_kept_pixel<K: Fn(Op, Width, u64, u64) -> u64>(c: &Calc<K>, p: Rgba, feedback: F32, bare: bool)
    requires
        rounds(c),
        unlit(p, bare),
        feedback.finite(),
    ensures
        unlit(kept_pixel(c, p, feedback), bare),
{
    if bare {
        lemma_no_count(c);
        lemma_nil_times(c, F32::of_count(c, 0), feedback);
        lemma_nil_byte(c, F32::of_count(c, 0).mul(c, feedback));
    }
}

// -------------------------------------------------------------------- smear

proof fn lemma_head_sum<K: Fn(Op, Width, u64, u64) -> u64>(c: &Calc<K>, d: Seq<F32>, n: int)
    requires
        rounds(c),
        silent(d),
        n <= d.len(),
    ensures
        nil(head_sum(c, d, n)),
    decreases n,
{
    if n > 0 {
        lemma_head_sum(c, d, n - 1);
        assert(nil(d[n - 1]));
        lemma_nils(c, head_sum(c, d, n - 1), d[n - 1]);
    }
}

/// How many values a box of `radius` around place `x` holds.
spec fn boxed(len: int, radius: int, x: int) -> int {
    least(len, x + radius + 1) - (if x > radius {
        x - radius
    } else {
        0
    })
}

proof fn lemma_count_step<K: Fn(Op, Width, u64, u64) -> u64>(c: &Calc<K>, n: F32, k: int)
    requires
        rounds(c),
        n.finite(),
        n.value() == k * one(),
        0 < k <= 1000,
    ensures
        n.add(c, single(0x3f80_0000)).finite(),
        n.add(c, single(0x3f80_0000)).value() == (k + 1) * one(),
        n.sub(c, single(0x3f80_0000)).finite(),
        n.sub(c, single(0x3f80_0000)).value() == (k - 1) * one(),
{
    lemma_ones();
    let (u, unit) = (one(), single(0x3f80_0000));
    assert((k + 1) * u == k * u + u && (k - 1) * u == k * u - u && 0 < k * u <= 1000 * u) by (nonlinear_arith)
        requires
            0 < k <= 1000,
            u > 0,
    ;
    lemma_reached((k + 1) * u, 1);
    lemma_reached((k - 1) * u, 1);
    lemma_add(c, n, unit);
    lemma_sub(c, n, unit);
    crate::rounding::lemma_grid(k + 1, 150);
    crate::rounding::lemma_grid(k - 1, 150);
    lemma_exact(n.add(c, unit), (k + 1) * u, 1, crate::rounding::grid(k + 1, 150));
    lemma_exact(n.sub(c, unit), (k - 1) * u, 1, crate::rounding::grid(k - 1, 150));
}

proof fn lemma_sliding<K: Fn(Op, Width, u64, u64) -> u64>(c: &Calc<K>, d: Seq<F32>, radius: int, x: int)
    requires
        rounds(c),
        silent(d),
        0 <= x < d.len(),
        0 <= radius <= 100,
    ensures
        nil(sliding(c, d, radius, x).0),
        sliding(c, d, radius, x).1.finite(),
        sliding(c, d, radius, x).1.value() == boxed(d.len() as int, radius, x) * one(),
        0 < boxed(d.len() as int, radius, x) <= 2 * radius + 1,
    decreases x,
{
    let len = d.len() as int;
    if x == 0 {
        let n = least(len, radius + 1);
        lemma_head_sum(c, d, n);
        lemma_of_count(c, n as u64);
        crate::rounding::lemma_grid(n, 150);
        lemma_exact(F32::of_count(c, n as u64), n * one(), 1, crate::rounding::grid(n, 150));
    } else {
        lemma_sliding(c, d, radius, x - 1);
        let (s, n) = sliding(c, d, radius, x - 1);
        let k = boxed(len, radius, x - 1);
        lemma_count_step(c, n, k);
        let (s1, n1) = if x + radius < len {
            (s.add(c, d[x + radius]), n.add(c, single(0x3f80_0000)))
        } else {
            (s, n)
        };
        let k1 = if x + radius < len {
            k + 1
        } else {
            k
        };
        if x + radius < len {
            assert(nil(d[x + radius]));
            lemma_nils(c, s, d[x + radius]);
        }
        if x - 1 >= radius {
            assert(nil(d[x - 1 - radius]));
            lemma_nils(c, s1, d[x - 1 - radius]);
            lemma_count_step(c, n1, k1);
        }
    }
}

proof fn lemma_line_blurred<K: Fn(Op, Width, u64, u64) -> u64>(c: &Calc<K>, d: Seq<F32>, radius: int)
    requires
        rounds(c),
        silent(d),
        0 <= radius <= 100,
    ensures
        silent(line_blurred(c, d, radius)),
{
    let b = line_blurred(c, d, radius);
    assert forall|x: int| 0 <= x < b.len() implies nil(#[trigger] b[x]) by {
        lemma_sliding(c, d, radius, x);
        lemma_pow2_pos(149);
        let (k, n) = (boxed(d.len() as int, radius, x), sliding(c, d, radius, x).1);
        assert(k * one() > 0) by (nonlinear_arith)
            requires
                k > 0,
                one() > 0,
        ;
        lemma_nil_over(c, sliding(c, d, radius, x).0, n);
    }
}

proof fn lemma_box_blurred<K: Fn(Op, Width, u64, u64) -> u64>(c: &Calc<K>, data: Seq<F32>, w: int, h: int, radius: int, bare: bool)
    requires
        rounds(c),
        unlit_smear(data, bare),
        0 <= w,
        0 <= h,
        data.len() == 4 * (w * h),
        0 <= radius <= 100,
    ensures
        unlit_smear(box_blurred(c, data, w, h, radius), bare),
{
    let rows = rows_blurred(c, data, w, radius);
    let all = box_blurred(c, data, w, h, radius);
    assert forall|i: int| 0 <= i < rows.len() && (bare || i % 4 < 3) implies nil(#[trigger] rows[i]) by {
        lemma_lane(w, h, i);
        let (y, ch, k) = (i / (4 * w), i % (4 * w) % 4, i % (4 * w) / 4);
        let line = row_line(data, w, y, ch);
        assert forall|j: int| 0 <= j < line.len() implies nil(#[trigger] line[j]) by {
            lemma_row_place(w, h, y, j, ch);
            assert(nil(data[y * (4 * w) + 4 * j + ch]));
        }
        lemma_line_blurred(c, line, radius);
        assert(nil(line_blurred(c, line, radius)[k]));
    }
    assert forall|i: int| 0 <= i < all.len() && (bare || i % 4 < 3) implies nil(#[trigger] all[i]) by {
        lemma_lane(w, h, i);
        let lane = i % (4 * w);
        let line = column_line(rows, w, h, lane);
        assert forall|j: int| 0 <= j < line.len() implies nil(#[trigger] line[j]) by {
            lemma_row_place(w, h, j, lane / 4, lane % 4);
            assert(4 * (lane / 4) + lane % 4 == lane);
            assert(nil(rows[j * (4 * w) + lane]));
        }
        lemma_line_blurred(c, line, radius);
        assert(nil(line_blurred(c, line, radius)[i / (4 * w)]));
    }
}

/// Where value `i` of an RGBA buffer stands.
proof fn lemma_lane(w: int, h: int, i: int)
    requires
        0 <= w,
        0 <= h,
        0 <= i < 4 * (w * h),
    ensures
        w > 0,
        0 <= i / (4 * w) < h,
        0 <= i % (4 * w) < 4 * w,
        i % (4 * w) % 4 == i % 4,
        0 <= i % (4 * w) / 4 < w,
{
    assert(w > 0) by (nonlinear_arith)
        requires
            0 <= w,
            0 <= i < 4 * (w * h),
    ;
    let (m, y) = (4 * w, i / (4 * w));
    assert(0 <= i % m < m && i == m * y + i % m) by (nonlinear_arith)
        requires
            m > 0,
            y == i / m,
    ;
    assert(0 <= y < h) by (nonlinear_arith)
        requires
            0 <= i < 4 * (w * h),
            i == m * y + i % m,
            0 <= i % m < m,
            m == 4 * w,
            w > 0,
    ;
    assert(m * y == 4 * (w * y)) by (nonlinear_arith)
        requires
            m == 4 * w,
    ;
}

proof fn lemma_row_place(w: int, h: int, y: int, k: int, ch: int)
    requires
        0 <= y < h,
        0 <= k < w,
        0 <= ch < 4,
    ensures
        0 <= y * (4 * w) + 4 * k + ch < 4 * (w * h),
        (y * (4 * w) + 4 * k + ch) % 4 == ch,
{
    assert(y * (4 * w) == 4 * (y * w)) by (nonlinear_arith);
    assert(0 <= y * w && y * w + w <= w * h) by (nonlinear_arith)
        requires
            0 <= y < h,
            0 < w,
    ;
}

proof fn lemma_smear_numbers<K: Fn(Op, Width, u64, u64) -> u64>(c: &Calc<K>, size: F32, damp: F32)
    requires
        rounds(c),
        size.finite(),
        damp.finite(),
    ensures
        smear_decay(c, size).finite(),
        single(0x3f80_0000).sub(c, smear_decay(c, size)).finite(),
        smear_radius(c, damp) <= 100,
{
    lemma_ones();
    let (zero, unit) = (single(0), single(0x3f80_0000));
    let (a, b) = (size.limit(zero, unit), damp.limit(zero, unit));
    lemma_small_pattern(a, 0);
    lemma_small_pattern(b, 0);
    lemma_small_pattern(unit, 1);
    lemma_small_pattern(single(0x3f40_0000), 0);
    lemma_small_pattern(single(0x3e75_c28f), 0);
    lemma_small_pattern(single(0x40c0_0000), 3);
    lemma_mul_small(c, single(0x3e75_c28f), 0, a, 0);
    lemma_add_small(c, single(0x3f40_0000), single(0x3e75_c28f).mul(c, a), 0);
    lemma_sub_small(c, unit, smear_decay(c, size), 1);
    lemma_mul_small(c, b, 0, single(0x40c0_0000), 3);
    let r = b.mul(c, single(0x40c0_0000));
    law_single_order_is_numeric(zero, b);
    law_single_order_is_numeric(zero, single(0x40c0_0000));
    let n = b.value() * single(0x40c0_0000).value();
    assert(0 <= n && zero.value() * one() == 0) by (nonlinear_arith)
        requires
            n == b.value() * single(0x40c0_0000).value(),
            0 <= b.value(),
            0 <= single(0x40c0_0000).value(),
            zero.value() == 0,
    ;
    crate::rounding::lemma_at_least(r, n, one(), zero);
    lemma_pow2_adds(3, 149);
    lemma2_to64();
    let (v, u) = (r.value(), one());
    assert(0 <= v / u <= 8) by (nonlinear_arith)
        requires
            0 <= v <= 8 * u,
            u > 0,
    ;
    reveal(rounds);
    assert(r.to_int(c) == v / u);
}

proof fn lemma_smear_after<K: Fn(Op, Width, u64, u64) -> u64>(c: &Calc<K>, acc: Seq<F32>, image: Image, size: F32, damp: F32, bare: bool)
    requires
        rounds(c),
        size.finite(),
        damp.finite(),
        0 <= image.width,
        0 <= image.height,
        unlit_image(image, image.width, image.height, bare),
        unlit_smear(acc, bare),
    ensures
        unlit_smear(smear_after(c, acc, image, size, damp), bare),
        smear_after(c, acc, image, size, damp).len() == 4 * image.px.len(),
{
    lemma_smear_numbers(c, size, damp);
    lemma_no_count(c);
    let from = if acc.len() != 4 * image.px.len() {
        Seq::new(4 * image.px.len(), |i: int| single(0))
    } else {
        acc
    };
    let decay = smear_decay(c, size);
    let rest = single(0x3f80_0000).sub(c, decay);
    let fed = smear_fed(c, from, image.px, decay);
    assert forall|i: int| 0 <= i < fed.len() && (bare || i % 4 < 3) implies nil(#[trigger] fed[i]) by {
        let p = image.px[i / 4];
        assert(unlit(p, bare));
        lemma_channel(c, p.a);
        let ch = (i % 4) as usize;
        if ch < 3 {
            lemma_nil_times(c, F32::of_count(c, 0), channel(c, p.a));
        } else {
            lemma_nil_times(c, channel(c, 0), single(0x437f_0000));
        }
        let input = smear_input(c, p, ch);
        assert(nil(input));
        assert(nil(from[i]));
        lemma_nil_times(c, input, rest);
        lemma_nil_times(c, from[i], decay);
        lemma_nils(c, from[i].mul(c, decay), input.mul(c, rest));
    }
    let radius = smear_radius(c, damp);
    if radius > 0 {
        lemma_box_blurred(c, fed, image.width, image.height, radius as int, bare);
    }
}

proof fn lemma_smeared_pixel<K: Fn(Op, Width, u64, u64) -> u64>(c: &Calc<K>, d: Rgba, r: F32, g: F32, b: F32, a: F32, mix: F32, bare: bool)
    requires
        rounds(c),
        unlit(d, bare),
        nil(r),
        nil(g),
        nil(b),
        bare ==> nil(a),
        small(a, 40),
        small(mix, 40),
    ensures
        unlit(smeared_pixel(c, d, r, g, b, a, a.div(c, single(0x437f_0000)).mul(c, mix)), bare),
{
    lemma_ones();
    let most = single(0x437f_0000);
    let over = a.div(c, most);
    let sa = over.mul(c, mix);
    law_single_order_is_numeric(single(0x3f80_0000), most);
    // Dividing by the largest channel makes no number larger.
    let (u, v, d0, t) = (one(), a.value(), most.value(), pow2(189) as int);
    lemma_pow2_adds(40, 149);
    lemma_pow2_adds(32, 8);
    lemma2_to64();
    lemma_pow2_pos(189);
    assert(apart(v * u, 0) <= t * d0 && t * d0 <= 0x2_0000_0000_0000_0000 * (u * d0)) by (nonlinear_arith)
        requires
            -t <= v <= t,
            t == 0x100_0000_0000 * u,
            u <= d0,
            0 < u,
    ;
    lemma_reached(v * u, d0);
    lemma_div(c, a, most);
    lemma_small_rounded(over, v * u, d0, 40);
    lemma_mul_small(c, over, 40, mix, 40);
    if bare {
        lemma_nil_over(c, a, most);
        lemma_nil_times(c, over, mix);
        lemma_faint(sa);
    } else {
        let den = over.max(single(0x3586_37bd));
        law_single_order_is_numeric(single(0), den);
        lemma_nil_over(c, r, den);
        lemma_nil_over(c, g, den);
        lemma_nil_over(c, b, den);
        lemma_ghost_channel(c, smear_colour(c, r, a), sa, d.a);
        lemma_ghost_channel(c, smear_colour(c, g, a), sa, d.a);
        lemma_ghost_channel(c, smear_colour(c, b, a), sa, d.a);
    }
}

// ------------------------------------------------------------------ effects

proof fn lemma_latest(ring: Seq<Image>, n: int, w: int, h: int, bare: bool)
    requires
        n >= 1,
        forall|i: int| 0 <= i < ring.len() ==> unlit_image(#[trigger] ring[i], w, h, bare),
    ensures
        forall|i: int| 0 <= i < latest(ring, n).len() ==> unlit_image(#[trigger] latest(ring, n)[i], w, h, bare),
{
    let l = latest(ring, n);
    assert forall|i: int| 0 <= i < l.len() implies unlit_image(#[trigger] l[i], w, h, bare) by {
        if ring.len() > n {
            assert(l[i] == ring[i + ring.len() - n]);
        }
    }
}

proof fn lemma_crush_unlit<K: Fn(Op, Width, u64, u64) -> u64>(c: &Calc<K>, image: Image, factor: int, levels: F32, w: int, h: int, bare: bool)
    requires
        rounds(c),
        0 <= w,
        0 <= h,
        factor > 0,
        levels.finite(),
        unlit_image(image, w, h, bare),
    ensures
        unlit_image(crushed_image(c, image, factor, levels), w, h, bare),
{
    lemma_posterized(c, levels);
    let f = crushed_image(c, image, factor, levels);
    let px = pixelated(image, factor);
    assert forall|j: int| 0 <= j < f.px.len() implies unlit(#[trigger] f.px[j], bare) by {
        lemma_block_corner(j, w, h, factor);
        assert(unlit(image.px[block_corner(j, w, factor)], bare));
        assert(unlit(image.px[j], bare));
        assert(f.px[j] == poster_pixel(c, px[j], levels));
    }
}

proof fn lemma_echo_unlit<K: Fn(Op, Width, u64, u64) -> u64>(c: &Calc<K>, ring: Seq<Image>, delay_frames: int, feedback: F32, mix: F32, shift_x: F32, shift_y: F32, image: Image, w: int, h: int, bare: bool)
    requires
        rounds(c),
        0 <= w,
        0 <= h,
        delay_frames >= 1,
        forall|i: int| 0 <= i < ring.len() ==> unlit_image(#[trigger] ring[i], w, h, bare),
        unlit_image(image, w, h, bare),
        feedback.finite(),
        small(mix, 40),
    ensures
        ({
            let out = echoed(c, ring, delay_frames, mix, shift_x, shift_y, image);
            let kept = kept_ring(c, ring, delay_frames, feedback, out);
            &&& unlit_image(out, w, h, bare)
            &&& forall|i: int| 0 <= i < kept.len() ==> unlit_image(#[trigger] kept[i], w, h, bare)
        }),
{
    let out = echoed(c, ring, delay_frames, mix, shift_x, shift_y, image);
    if ring.len() >= delay_frames {
        let ghost_image = ring[ring.len() - delay_frames];
        assert(unlit_image(ghost_image, w, h, bare));
        let dx = drift(c, shift_x, image.width as u32) as int;
        let dy = drift(c, shift_y, image.height as u32) as int;
        assert forall|j: int| 0 <= j < out.px.len() implies unlit(#[trigger] out.px[j], bare) by {
            assert(unlit(image.px[j], bare));
            let (gx, gy) = (j % w - dx, j / w - dy);
            if 0 <= gx < w && 0 <= gy < h {
                lemma_index(w, h, gx, gy);
                assert(unlit(ghost_image.px[gy * w + gx], bare));
                lemma_ghosted_pixel(c, image.px[j], ghost_image.pixel(gx, gy), mix, bare);
            }
        }
    }
    let last = Image { px: out.px.map_values(|p: Rgba| kept_pixel(c, p, feedback)), ..out };
    assert forall|j: int| 0 <= j < last.px.len() implies unlit(#[trigger] last.px[j], bare) by {
        assert(unlit(out.px[j], bare));
        lemma_kept_pixel(c, out.px[j], feedback, bare);
    }
    assert forall|i: int| 0 <= i < ring.push(last).len() implies unlit_image(#[trigger] ring.push(last)[i], w, h, bare) by {
        if i < ring.len() {
            assert(unlit_image(ring[i], w, h, bare));
        }
    }
    lemma_latest(ring.push(last), delay_frames, w, h, bare);
}

proof fn lemma_smear_unlit<K: Fn(Op, Width, u64, u64) -> u64>(c: &Calc<K>, acc: Seq<F32>, size: F32, damp: F32, mix: F32, image: Image, w: int, h: int, bare: bool)
    requires
        rounds(c),
        0 <= w,
        0 <= h,
        size.finite(),
        damp.finite(),
        small(mix, 40),
        unlit_smear(acc, bare),
        unlit_image(image, w, h, bare),
        !bare ==> forall|i: int|
            0 <= i < smear_after(c, acc, image, size, damp).len() ==> small(
                #[trigger] smear_after(c, acc, image, size, damp)[i],
                40,
            ),
    ensures
        ({
            let after = smear_after(c, acc, image, size, damp);
            &&& unlit_smear(after, bare)
            &&& unlit_image(Image { px: smeared(c, image.px, after, mix), ..image }, w, h, bare)
        }),
{
    lemma_smear_after(c, acc, image, size, damp, bare);
    let after = smear_after(c, acc, image, size, damp);
    let f = Image { px: smeared(c, image.px, after, mix), ..image };
    assert forall|j: int| 0 <= j < f.px.len() implies unlit(#[trigger] f.px[j], bare) by {
        assert(unlit(image.px[j], bare));
        assert(nil(after[4 * j]) && nil(after[4 * j + 1]) && nil(after[4 * j + 2]));
        let a = after[4 * j + 3];
        if bare {
            assert(nil(a));
            lemma_nil(a);
            lemma_pow2_pos(189);
        } else {
            assert(small(after[4 * j + 3], 40));
        }
        lemma_smeared_pixel(c, image.px[j], after[4 * j], after[4 * j + 1], after[4 * j + 2], a, mix, bare);
    }
}

proof fn lemma_moderate_values(t: VideoFxView, acc: Seq<F32>)
    requires
        smear_is_moderate(t),
        t == (VideoFxView::Reverb { acc }),
    ensures
        forall|i: int| 0 <= i < acc.len() ==> small(#[trigger] acc[i], 40),
{
    assert forall|i: int| 0 <= i < acc.len() implies small(#[trigger] acc[i], 40) by {
        match t {
            VideoFxView::Reverb { acc: own } => {
                assert(own == acc);
                assert(small(own[i], 40));
            },
            _ => {},
        }
    }
}

/// An effect makes nothing out of nothing.
#[verifier::rlimit(40)]
proof fn lemma_effect_unlit<K: Fn(Op, Width, u64, u64) -> u64>(c: &Calc<K>, fx: AvEffect, s: VideoFxView, image: Image, w: int, h: int, bare: bool)
    requires
        rounds(c),
        0 <= w,
        0 <= h,
        steady_picture(c, fx),
        unlit_state(s, w, h, bare),
        unlit_image(image, w, h, bare),
        bare || smear_is_moderate(effect_frame(c, fx, s, image).0),
    ensures
        unlit_state(effect_frame(c, fx, s, image).0, w, h, bare),
        unlit_image(effect_frame(c, fx, s, image).1, w, h, bare),
{
    reveal(effect_frame);
    if fx.video.le(single(BYPASS)) {
        match s {
            VideoFxView::Delay { ring, delay_frames } => {
                assert forall|i: int| 0 <= i < ring.push(image).len() implies unlit_image(
                    #[trigger] ring.push(image)[i],
                    w,
                    h,
                    bare,
                ) by {
                    if i < ring.len() {
                        assert(unlit_image(ring[i], w, h, bare));
                    }
                }
                lemma_latest(ring.push(image), delay_frames, w, h, bare);
            },
            _ => {},
        }
    } else {
        match (fx.kind, s) {
            (EffectKind::Crush { downsample, bits }, _) => {
                lemma_crush_unlit(
                    c,
                    image,
                    pixel_factor(c, downsample, fx.video) as int,
                    colour_levels(c, bits, fx.video),
                    w,
                    h,
                    bare,
                );
            },
            (
                EffectKind::Delay { feedback, mix, shift_x, shift_y, .. },
                VideoFxView::Delay { ring, delay_frames },
            ) => {
                lemma_echo_unlit(c, ring, delay_frames, feedback, mix.mul(c, fx.video), shift_x, shift_y, image, w, h, bare);
            },
            (EffectKind::Reverb { size, damp, mix }, VideoFxView::Reverb { acc }) => {
                let after = smear_after(c, acc, image, size, damp);
                let t = VideoFxView::Reverb { acc: after };
                assert(effect_frame(c, fx, s, image).0 == t);
                if !bare {
                    lemma_moderate_values(t, after);
                }
                lemma_smear_unlit(c, acc, size, damp, mix.mul(c, fx.video), image, w, h, bare);
            },
            _ => {},
        }
    }
}

pub open spec fn steady_pictures<K: Fn(Op, Width, u64, u64) -> u64>(c: &Calc<K>, chain: Seq<AvEffect>) -> bool {
    forall|i: int| 0 <= i < chain.len() ==> steady_picture(c, #[trigger] chain[i])
}

/// Whether what the effects of a chain keep has no colour.
pub open spec fn unlit_states(states: Seq<VideoFxView>, w: int, h: int, bare: bool) -> bool {
    forall|i: int| 0 <= i < states.len() ==> unlit_state(#[trigger] states[i], w, h, bare)
}

pub open spec fn smears_are_moderate(states: Seq<VideoFxView>) -> bool {
    forall|i: int| 0 <= i < states.len() ==> smear_is_moderate(#[trigger] states[i])
}

proof fn lemma_chain_unlit<K: Fn(Op, Width, u64, u64) -> u64>(c: &Calc<K>, chain: Seq<AvEffect>, states: Seq<VideoFxView>, image: Image, n: int, w: int, h: int, bare: bool)
    requires
        rounds(c),
        0 <= w,
        0 <= h,
        steady_pictures(c, chain),
        states.len() == chain.len(),
        0 <= n <= chain.len(),
        unlit_states(states, w, h, bare),
        unlit_image(image, w, h, bare),
        bare || forall|i: int| 0 <= i < n ==> smear_is_moderate(#[trigger] chain_frame(c, chain, states, image, n).0[i]),
    ensures
        chain_frame(c, chain, states, image, n).0.len() == states.len(),
        unlit_states(chain_frame(c, chain, states, image, n).0, w, h, bare),
        unlit_image(chain_frame(c, chain, states, image, n).1, w, h, bare),
    decreases n,
{
    if n > 0 {
        let (s, f) = chain_frame(c, chain, states, image, n - 1);
        let (t, g) = effect_frame(c, chain[n - 1], s[n - 1], f);
        let last = chain_frame(c, chain, states, image, n).0;
        lemma_chain_len(c, chain, states, image, n - 1);
        if !bare {
            assert forall|i: int| 0 <= i < n - 1 implies smear_is_moderate(#[trigger] s[i]) by {
                assert(last[i] == s[i]);
            }
            assert(last[n - 1] == t);
        }
        lemma_chain_unlit(c, chain, states, image, n - 1, w, h, bare);
        assert(steady_picture(c, chain[n - 1]));
        assert(unlit_state(s[n - 1], w, h, bare));
        lemma_effect_unlit(c, chain[n - 1], s[n - 1], f, w, h, bare);
    }
}

proof fn lemma_chain_len<K: Fn(Op, Width, u64, u64) -> u64>(c: &Calc<K>, chain: Seq<AvEffect>, states: Seq<VideoFxView>, image: Image, n: int)
    requires
        n <= states.len(),
    ensures
        chain_frame(c, chain, states, image, n).0.len() == states.len(),
    decreases n,
{
    if n > 0 {
        lemma_chain_len(c, chain, states, image, n - 1);
    }
}

proof fn lemma_fresh_unlit<K: Fn(Op, Width, u64, u64) -> u64>(c: &Calc<K>, chain: Seq<AvEffect>, fps: F32, w: int, h: int, bare: bool)
    ensures
        unlit_states(fresh_video_states(c, chain, fps), w, h, bare),
        fresh_video_states(c, chain, fps).len() == chain.len(),
{
    let states = fresh_video_states(c, chain, fps);
    assert forall|i: int| 0 <= i < states.len() implies unlit_state(#[trigger] states[i], w, h, bare) by {
        assert(states[i] == fresh_video_state(c, chain[i].kind, fps));
    }
}

// ------------------------------------------------------------------- tracks

/// Whether no event of a plan sounds at a time.
pub open spec fn nothing_at<K: Fn(Op, Width, u64, u64) -> u64>(c: &Calc<K>, plan: Seq<PlanView>, t: F64) -> bool {
    forall|i: int| 0 <= i < plan.len() ==> !active(c, (#[trigger] plan[i]).parts, t)
}

/// Whether every chain of a project is one that keeps black.
pub open spec fn steady_show<K: Fn(Op, Width, u64, u64) -> u64>(c: &Calc<K>, project: Project) -> bool {
    &&& steady_pictures(c, project.master_effects@)
    &&& forall|ti: int| 0 <= ti < project.tracks@.len() ==> steady_pictures(c, (#[trigger] project.tracks@[ti]).effects@)
    &&& forall|ti: int, k: int|
        0 <= ti < project.tracks@.len() && 0 <= k < project.tracks@[ti].clips@.len() ==> steady_pictures(
            c,
            (#[trigger] project.tracks@[ti].clips@[k]).effects@,
        )
}

/// Whether a track's clips and the track itself keep no colour.
spec fn unlit_track(project: Project, plan: Seq<PlanView>, ti: int, states: TrackStates) -> bool {
    let (w, h) = (project.width as int, project.height as int);
    &&& states.clips.len() == plan.len()
    &&& forall|i: int|
        0 <= i < plan.len() && plan[i].track == ti ==> unlit_states(#[trigger] states.clips[i], w, h, true)
            && states.clips[i].len() == project.tracks@[ti].clips@[plan[i].clip].effects@.len()
    &&& unlit_states(states.track, w, h, true)
    &&& states.track.len() == project.tracks@[ti].effects@.len()
}

proof fn lemma_clear(project: Project)
    ensures
        unlit_image(clear(project), project.width as int, project.height as int, true),
{
    let (w, h) = (project.width as int, project.height as int);
    assert(w * h >= 0) by (nonlinear_arith)
        requires
            w >= 0,
            h >= 0,
    ;
}

spec fn unlit_layer(project: Project, layer: Option<Image>) -> bool {
    layer is Some ==> unlit_image(layer->0, project.width as int, project.height as int, true)
}

proof fn lemma_track_layer<K: Fn(Op, Width, u64, u64) -> u64>(c: &Calc<K>, project: Project, plan: Seq<PlanView>, ti: int, states: TrackStates, t: F64, n: int)
    requires
        rounds(c),
        steady_show(c, project),
        crate::render::plan_fits(project, plan),
        nothing_at(c, plan, t),
        0 <= ti < project.tracks@.len(),
        unlit_track(project, plan, ti, states),
        n <= plan.len(),
    ensures
        ({
            let (s, layer) = track_layer(c, project, plan, ti, states.clips, t, n);
            &&& unlit_track(project, plan, ti, TrackStates { clips: s, track: states.track })
            &&& unlit_layer(project, layer)
        }),
    decreases n,
{
    if n > 0 {
        lemma_track_layer(c, project, plan, ti, states, t, n - 1);
        let (s, below) = track_layer(c, project, plan, ti, states.clips, t, n - 1);
        let p = plan[n - 1];
        if p.track == ti {
            let clip = project.tracks@[ti].clips@[p.clip];
            let (w, h) = (project.width as int, project.height as int);
            assert(!active(c, p.parts, t));
            lemma_clear(project);
            assert(unlit_states(s[n - 1], w, h, true));
            assert(steady_pictures(c, clip.effects@));
            let (own, layer) = clip_layer(c, project, clip, p, s[n - 1], t);
            lemma_chain_unlit(c, clip.effects@, s[n - 1], clear(project), clip.effects@.len() as int, w, h, true);
            assert(unlit_states(own, w, h, true) && own.len() == clip.effects@.len());
            match layer {
                Some(f) => {
                    let under = match below {
                        Some(b) => b,
                        None => clear(project),
                    };
                    lemma_no_count(c);
                    lemma_faint(channel(c, 0));
                    let stacked = Image { px: layers_stacked(c, under.px, f.px, p.style.additive), ..under };
                    assert forall|i: int| 0 <= i < stacked.px.len() implies unlit(#[trigger] stacked.px[i], true) by {
                        assert(unlit(f.px[i], true));
                        assert(unlit(under.px[i], true));
                    }
                },
                None => {},
            }
        }
    }
}

/// Whether a track's opacity is a number at a time.
pub open spec fn opacity_is_number<K: Fn(Op, Width, u64, u64) -> u64>(c: &Calc<K>, project: Project, ti: int, t: F64) -> bool {
    !level_opacity(
        c,
        project.tracks@[ti].level_on(c, time_beat(c, project.bpm, t)),
        project.tracks@[ti].level_to_opacity,
    ).nan()
}

proof fn lemma_track_frame<K: Fn(Op, Width, u64, u64) -> u64>(c: &Calc<K>, project: Project, plan: Seq<PlanView>, ti: int, states: TrackStates, frame: Image, t: F64)
    requires
        rounds(c),
        steady_show(c, project),
        crate::render::plan_fits(project, plan),
        nothing_at(c, plan, t),
        opacity_is_number(c, project, ti, t),
        0 <= ti < project.tracks@.len(),
        unlit_track(project, plan, ti, states),
        frame.px.len() == project.width * project.height,
    ensures
        unlit_track(project, plan, ti, track_frame(c, project, plan, ti, states, frame, t).0),
        track_frame(c, project, plan, ti, states, frame, t).1 == frame,
{
    let track = project.tracks@[ti];
    let (w, h) = (project.width as int, project.height as int);
    lemma_track_layer(c, project, plan, ti, states, t, plan.len() as int);
    let (clips, layer) = track_layer(c, project, plan, ti, states.clips, t, plan.len() as int);
    if !(layer is None && track.effects@.len() == 0) {
        lemma_clear(project);
        let dry = match layer {
            Some(f) => f,
            None => clear(project),
        };
        assert(steady_pictures(c, track.effects@));
        lemma_chain_unlit(c, track.effects@, states.track, dry, track.effects@.len() as int, w, h, true);
        let wet = chain_frame(c, track.effects@, states.track, dry, track.effects@.len() as int).1;
        let opacity = level_opacity(c, track.level_on(c, time_beat(c, project.bpm, t)), track.level_to_opacity);
        let o = opacity.clamp(single(0), single(0x3f80_0000));
        lemma_no_count(c);
        lemma_nil_times(c, channel(c, 0), o);
        lemma_faint(channel(c, 0).mul(c, o));
        assert forall|i: int| 0 <= i < frame.px.len() implies layer_weight(c, (#[trigger] wet.px[i]).a, o).le(
            single(FAINT),
        ) by {
            assert(unlit(wet.px[i], true));
        }
        law_faint_layers_change_nothing(c, frame.px, wet.px, single(0), opacity);
    }
}

proof fn lemma_track_frames<K: Fn(Op, Width, u64, u64) -> u64>(c: &Calc<K>, project: Project, plan: Seq<PlanView>, ti: int, frames: Seq<Image>, t0: F64, n: int)
    requires
        rounds(c),
        steady_show(c, project),
        crate::render::plan_fits(project, plan),
        0 <= ti < project.tracks@.len(),
        0 <= n <= frames.len(),
        forall|i: int|
            0 <= i < frames.len() ==> (#[trigger] frames[i]).px.len() == project.width * project.height,
        forall|i: int|
            0 <= i < n ==> nothing_at(c, plan, #[trigger] frame_time(c, project.fps, t0, i as u64)) && opacity_is_number(
                c,
                project,
                ti,
                frame_time(c, project.fps, t0, i as u64),
            ),
    ensures
        unlit_track(project, plan, ti, track_frames(c, project, plan, ti, frames, t0, n).0),
        track_frames(c, project, plan, ti, frames, t0, n).1 == frames,
    decreases n,
{
    let (w, h) = (project.width as int, project.height as int);
    if n <= 0 {
        let fresh = fresh_track(c, project, plan, ti);
        assert forall|i: int| 0 <= i < plan.len() && plan[i].track == ti implies unlit_states(
            #[trigger] fresh.clips[i],
            w,
            h,
            true,
        ) && fresh.clips[i].len() == project.tracks@[ti].clips@[plan[i].clip].effects@.len() by {
            lemma_fresh_unlit(c, project.tracks@[plan[i].track].clips@[plan[i].clip].effects@, project.fps, w, h, true);
        }
        lemma_fresh_unlit(c, project.tracks@[ti].effects@, project.fps, w, h, true);
    } else {
        lemma_track_frames(c, project, plan, ti, frames, t0, n - 1);
        let (s, done) = track_frames(c, project, plan, ti, frames, t0, n - 1);
        let t = frame_time(c, project.fps, t0, (n - 1) as u64);
        lemma_track_frame(c, project, plan, ti, s, done[n - 1], t);
        assert(done.update(n - 1, done[n - 1]) =~= done);
    }
}

/// Whether nothing sounds at the time of any frame of a window, and all opacities are
/// numbers then.
pub open spec fn nothing_to_see<K: Fn(Op, Width, u64, u64) -> u64>(c: &Calc<K>, project: Project, plan: Seq<PlanView>, count: nat, t0: F64) -> bool {
    forall|i: int|
        0 <= i < count ==> nothing_at(c, plan, #[trigger] frame_time(c, project.fps, t0, i as u64)) && forall|ti: int|
            0 <= ti < project.tracks@.len() ==> #[trigger] opacity_is_number(
                c,
                project,
                ti,
                frame_time(c, project.fps, t0, i as u64),
            )
}

/// The frames that a project starts from.
pub open spec fn black(project: Project, count: nat) -> Seq<Image> {
    Seq::new(
        count,
        |i: int| plain(project.width as int, project.height as int, Rgba { r: 0, g: 0, b: 0, a: 255 }),
    )
}

proof fn lemma_black_size(project: Project, count: nat)
    ensures
        forall|i: int|
            0 <= i < count ==> (#[trigger] black(project, count)[i]).px.len() == project.width * project.height
                && unlit_image(black(project, count)[i], project.width as int, project.height as int, false),
{
    let (w, h) = (project.width as int, project.height as int);
    assert(w * h >= 0) by (nonlinear_arith)
        requires
            w >= 0,
            h >= 0,
    ;
}

proof fn lemma_tracks_black<K: Fn(Op, Width, u64, u64) -> u64>(c: &Calc<K>, project: Project, plan: Seq<PlanView>, count: nat, t0: F64, n: int)
    requires
        rounds(c),
        steady_show(c, project),
        crate::render::plan_fits(project, plan),
        nothing_to_see(c, project, plan, count, t0),
        0 <= n <= project.tracks@.len(),
    ensures
        tracks_shown(c, project, plan, count, t0, n) == black(project, count),
    decreases n,
{
    if n <= 0 {
        assert(tracks_shown(c, project, plan, count, t0, n) =~= black(project, count));
    } else {
        lemma_tracks_black(c, project, plan, count, t0, n - 1);
        let below = black(project, count);
        lemma_black_size(project, count);
        assert forall|i: int| 0 <= i < count implies nothing_at(
            c,
            plan,
            #[trigger] frame_time(c, project.fps, t0, i as u64),
        ) && opacity_is_number(c, project, n - 1, frame_time(c, project.fps, t0, i as u64)) by {}
        lemma_track_frames(c, project, plan, n - 1, below, t0, count as int);
    }
}

proof fn lemma_master_black<K: Fn(Op, Width, u64, u64) -> u64>(c: &Calc<K>, project: Project, count: nat, n: int)
    requires
        rounds(c),
        steady_show(c, project),
        0 <= n <= count,
        forall|k: int| 0 <= k <= n ==> smears_are_moderate((#[trigger] master_frames(c, project, black(project, count), k)).0),
    ensures
        ({
            let (w, h) = (project.width as int, project.height as int);
            let (s, done) = master_frames(c, project, black(project, count), n);
            &&& unlit_states(s, w, h, false)
            &&& s.len() == project.master_effects@.len()
            &&& done.len() == count
            &&& forall|i: int| 0 <= i < count ==> unlit_image(#[trigger] done[i], w, h, false)
        }),
    decreases n,
{
    let (w, h) = (project.width as int, project.height as int);
    lemma_black_size(project, count);
    let chain = project.master_effects@;
    if n <= 0 {
        lemma_fresh_unlit(c, chain, project.fps, w, h, false);
    } else {
        lemma_master_black(c, project, count, n - 1);
        let (s, done) = master_frames(c, project, black(project, count), n - 1);
        let (next, f) = chain_frame(c, chain, s, done[n - 1], chain.len() as int);
        lemma_chain_len(c, chain, s, done[n - 1], chain.len() as int);
        assert(smears_are_moderate(master_frames(c, project, black(project, count), n).0));
        assert(unlit_image(done[n - 1], w, h, false));
        lemma_chain_unlit(c, chain, s, done[n - 1], chain.len() as int, w, h, false);
    }
}

/// A window in which nothing sounds at any frame's time is black, whatever crushes, echoes
/// and smears the project has.
pub proof fn law_windows_without_events_are_black<K: Fn(Op, Width, u64, u64) -> u64>(c: &Calc<K>, project: Project, plan: Seq<PlanView>, count: nat, t0: F64)
    requires
        rounds(c),
        steady_show(c, project),
        crate::render::plan_fits(project, plan),
        nothing_to_see(c, project, plan, count, t0),
        forall|k: int|
            0 <= k <= count ==> smears_are_moderate((#[trigger] master_frames(c, project, black(project, count), k)).0),
    ensures
        project_shown(c, project, plan, count, t0).len() == count,
        forall|i: int, j: int|
            0 <= i < count && 0 <= j < project.width * project.height ==> unlit(
                #[trigger] project_shown(c, project, plan, count, t0)[i].px[j],
                false,
            ),
        project.master_effects@.len() == 0 ==> project_shown(c, project, plan, count, t0) == black(project, count),
{
    lemma_tracks_black(c, project, plan, count, t0, project.tracks@.len() as int);
    lemma_master_black(c, project, count, count as int);
    let all = project_shown(c, project, plan, count, t0);
    assert forall|i: int, j: int| 0 <= i < count && 0 <= j < project.width * project.height implies unlit(
        #[trigger] all[i].px[j],
        false,
    ) by {
        assert(unlit_image(all[i], project.width as int, project.height as int, false));
    }
    if project.master_effects@.len() == 0 {
        lemma_no_master(c, project, black(project, count), count as int);
    }
}

proof fn lemma_no_master<K: Fn(Op, Width, u64, u64) -> u64>(c: &Calc<K>, project: Project, frames: Seq<Image>, n: int)
    requires
        project.master_effects@.len() == 0,
        n <= frames.len(),
    ensures
        master_frames(c, project, frames, n).1 == frames,
    decreases n,
{
    if n > 0 {
        lemma_no_master(c, project, frames, n - 1);
        assert(frames.update(n - 1, frames[n - 1]) =~= frames);
    }
}

} // verus!
