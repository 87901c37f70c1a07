//! What the picture effects do to a pixel, with arithmetic that rounds to nearest: how ghosts
//! shine through and fade, how a smear builds up and blurs, and how colours are thinned out.
use crate::calc::{Calc, Op, Width};
use crate::echoes::{lemma_floor_size, lemma_product_not_negative, rounds_singles_to_whole};
use crate::fx_video::{
    drift, echo_frames, ghost_channel, ghosted, head_sum, kept_pixel, kept_ring, least, line_blurred, sliding, smear_decay, smear_fed, smear_radius, under_alpha,
    under_channel,
};
use crate::num::{single, F32};
use crate::reals::{
    about, amount, kept_within, lemma_about_kept, lemma_about_less, lemma_about_over, lemma_about_plus, lemma_about_times, lemma_compared, lemma_constant,
    lemma_constants, lemma_counted, lemma_exactly, lemma_greater, lemma_quotient, size,
};
use crate::rounding::{one, rounds};
use crate::saved::drops_fractions;
use crate::shades::{law_channels_are_parts, lemma_byte, weight};
use crate::spread::lemma_single_counts;
use crate::video::{channel, Image, Rgba};
use vstd::arithmetic::power2::{lemma2_to64, lemma_pow2_adds, lemma_pow2_pos, pow2};
use vstd::prelude::*;

verus! {

// --------------------------------------------------------------------- ghosts

/// A frame with a ghost under it is as opaque as the frame, and as the ghost where that shines
/// through.
pub proof fn law_ghosts_add_opacity<K: Fn(Op, Width, u64, u64) -> u64>(c: &Calc<K>, da: F32, ga: F32)
    requires
        rounds(c),
        weight(da),
        weight(ga),
    ensures
        about(under_alpha(c, da, ga), amount(da) + amount(ga) * (1real - amount(da)), 12real / 0x40_0000real),
{
    let u = 1real / 0x40_0000real;
    lemma_constants();
    lemma2_to64();
    let (unity, few) = (single(0x3f80_0000), single(0x3586_37bd));
    lemma_constant(0x3586_37bd, 0x86_37bd, 107);
    lemma_pow2_adds(32, 11);
    assert(pow2(43) as real == 0x800_0000_0000real);
    assert(amount(few) * 0x800_0000_0000real == 0x86_37bdreal);
    let (x, y) = (amount(da), amount(ga));
    lemma_about_less(c, unity, 1real, 0real, da, x, 0real, 1real, 2real * u);
    let n = unity.sub(c, da);
    lemma_about_times(c, ga, y, 0real, 1real, n, 1real - x, 2real * u, 1real, 5real * u);
    let p = ga.mul(c, n);
    assert(0real <= y * (1real - x) <= 1real) by (nonlinear_arith)
        requires
            0real <= y <= 1real,
            0real <= x <= 1real,
    ;
    lemma_about_plus(c, da, x, 0real, p, y * (1real - x), 5real * u, 2real, 9real * u);
    lemma_greater(da.add(c, p), few);
}

/// What a ghost under a channel makes of it: the two in the shares in which they are seen.
pub open spec fn shared(d: real, da: real, g: real, ga: real) -> real {
    d * da + g * ga * (1real - da)
}

/// Where the frame is transparent a ghost lies under it: the colour is that of frame and ghost
/// in the shares in which they are seen, over how opaque they are together.
#[verifier::rlimit(30)]
pub proof fn law_ghosts_lie_under<K: Fn(Op, Width, u64, u64) -> u64>(c: &Calc<K>, g: F32, d: u8, ga: F32, da: F32, out_a: F32)
    requires
        rounds(c),
        weight(da),
        weight(ga),
        g.finite() && 0real <= amount(g) <= 255real,
        out_a.finite() && 1real / 0x200real <= amount(out_a) <= 2real,
        shared(d as real, amount(da), amount(g), amount(ga)) <= 256real * amount(out_a),
    ensures
        about(
            under_channel(c, g, d, ga, da, out_a),
            shared(d as real, amount(da), amount(g), amount(ga)) / amount(out_a),
            1real / 4real,
        ),
        0real <= shared(d as real, amount(da), amount(g), amount(ga)) / amount(out_a) <= 256real,
{
    let u = 1real / 0x40_0000real;
    lemma_constants();
    lemma_single_counts(c, d as u64);
    let unity = single(0x3f80_0000);
    let (dd, x, y, gg, o) = (d as real, amount(da), amount(ga), amount(g), amount(out_a));
    let n = F32::of_count(c, d as u64);
    lemma_about_times(c, n, dd, 0real, 255real, da, x, 0real, 1real, 257real * u);
    lemma_about_times(c, g, gg, 0real, 255real, ga, y, 0real, 1real, 257real * u);
    lemma_about_less(c, unity, 1real, 0real, da, x, 0real, 1real, 2real * u);
    let (p, q, r) = (n.mul(c, da), g.mul(c, ga), unity.sub(c, da));
    lemma_about_times(c, q, gg * y, 257real * u, 255real, r, 1real - x, 2real * u, 1real, 1030real * u);
    assert(0real <= dd * x <= 255real && 0real <= gg * y * (1real - x) <= 255real) by (nonlinear_arith)
        requires
            0real <= dd <= 255real,
            0real <= x <= 1real,
            0real <= gg <= 255real,
            0real <= y <= 1real,
    {
        assert(0real <= gg * y <= 255real);
    }
    let w = shared(dd, x, gg, y);
    lemma_about_plus(c, p, dd * x, 257real * u, q.mul(c, r), gg * y * (1real - x), 1030real * u, 510real, 1800real * u);
    let t = p.add(c, q.mul(c, r));
    let k = (2real * 256real + 1real) / 0x40_0000real;
    assert(k * o + 1800real * u <= (1real / 4real) * o) by (nonlinear_arith)
        requires
            k == 513real / 0x40_0000real,
            u == 1real / 0x40_0000real,
            o >= 1real / 0x200real,
    ;
    assert(1800real * u <= 256real * o);
    lemma_about_over(c, t, w, 1800real * u, out_a, o, 256real, 1real / 4real);
    lemma_quotient(w, o);
    let z = w / o;
    assert(z >= 0real) by (nonlinear_arith)
        requires
            z * o == w,
            w >= 0real,
            o > 0real,
    ;
}

/// Where the frame is opaque a ghost glows through it: what is missing to full brightness is
/// filled up in the share in which the ghost is seen. The colour is cut to the byte below.
#[verifier::rlimit(30)]
pub proof fn law_ghosts_glow<K: Fn(Op, Width, u64, u64) -> u64>(c: &Calc<K>, g: F32, d: u8, ga: F32, da: F32, out_a: F32)
    requires
        rounds(c),
        drops_fractions(c),
        weight(da),
        weight(ga),
        g.finite() && 0real <= amount(g) <= 255real,
        out_a.finite() && 1real / 0x200real <= amount(out_a) <= 2real,
        shared(d as real, amount(da), amount(g), amount(ga)) <= 256real * amount(out_a),
    ensures
        ({
            let under = shared(d as real, amount(da), amount(g), amount(ga)) / amount(out_a);
            let want = under + amount(g) * amount(ga) * amount(da) * (1real - under / 255real);
            let got = ghost_channel(c, g, d, ga, da, out_a) as real;
            -1real <= kept_within(want, 0real, 255real) - got <= 2real
        }),
{
    let u = 1real / 0x40_0000real;
    lemma_constants();
    law_ghosts_lie_under(c, g, d, ga, da, out_a);
    lemma2_to64();
    let full = single(0x437f_0000);
    lemma_constant(0x437f_0000, 0xff_0000, 134);
    assert(pow2(16) as real == 0x1_0000real);
    assert(amount(full) * 0x1_0000real == 0xff_0000real);
    let unity = single(0x3f80_0000);
    let (x, y, gg) = (amount(da), amount(ga), amount(g));
    let t = under_channel(c, g, d, ga, da, out_a);
    let w = shared(d as real, x, gg, y) / amount(out_a);
    lemma_about_over(c, t, w, 1real / 4real, full, 255real, 2real, 1real / 900real);
    let h = t.div(c, full);
    lemma_about_less(c, unity, 1real, 0real, h, w / 255real, 1real / 900real, 1real, 1real / 890real);
    let r = unity.sub(c, h);
    lemma_about_times(c, g, gg, 0real, 255real, ga, y, 0real, 1real, 257real * u);
    lemma_about_times(c, g.mul(c, ga), gg * y, 257real * u, 255real, da, x, 0real, 1real, 520real * u);
    let q = g.mul(c, ga).mul(c, da);
    lemma_about_times(c, q, gg * y * x, 520real * u, 255real, r, 1real - w / 255real, 1real / 890real, 1real, 1real / 3real);
    let s = gg * y * x * (1real - w / 255real);
    lemma_about_plus(c, t, w, 1real / 4real, q.mul(c, r), s, 1real / 3real, 600real, 2real / 3real);
    let sum = t.add(c, q.mul(c, r));
    lemma_greater(sum, full);
    lemma_byte(c, sum.lesser(full));
}

/// A ghost is seen shifted: a pixel has the ghost of the pixel that lies the shift before it,
/// and none where that is outside the frame.
pub proof fn law_ghosts_are_shifted<K: Fn(Op, Width, u64, u64) -> u64>(c: &Calc<K>, image: Image, a: Image, b: Image, mix: F32, dx: int, dy: int, j: int)
    requires
        0 <= j < image.px.len(),
        image.width > 0,
        0 <= j % image.width - dx < image.width && 0 <= j / image.width - dy < image.height ==> a.pixel(
            j % image.width - dx,
            j / image.width - dy,
        ) == b.pixel(j % image.width - dx, j / image.width - dy),
    ensures
        ghosted(c, image, a, mix, dx, dy)[j] == ghosted(c, image, b, mix, dx, dy)[j],
        !(0 <= j % image.width - dx < image.width && 0 <= j / image.width - dy < image.height) ==> ghosted(
            c,
            image,
            a,
            mix,
            dx,
            dy,
        )[j] == image.px[j],
{
}

/// A shift is a part of the frame, in whole pixels towards where it was.
pub proof fn law_shifts_are_parts<K: Fn(Op, Width, u64, u64) -> u64>(c: &Calc<K>, shift: F32, n: u32)
    requires
        rounds(c),
        drops_fractions(c),
        shift.finite() && 0real <= amount(shift) <= 1real,
        n <= 0x4000,
    ensures
        -1real / 16real <= amount(shift) * (n as real) - (drift(c, shift, n) as real) <= 1real + 1real / 16real,
{
    lemma_single_counts(c, n as u64);
    let k = F32::of_count(c, n as u64);
    lemma_about_times(c, shift, amount(shift), 0real, 1real, k, n as real, 0real, 0x4000real, 1real / 100real);
    let p = shift.mul(c, k);
    lemma_product_not_negative(c, shift, k);
    lemma_floor_size(c, p);
}

/// A frame that is kept for an echo keeps its colours, and as much of its opacity as the
/// feedback says.
pub proof fn law_echoes_fade<K: Fn(Op, Width, u64, u64) -> u64>(c: &Calc<K>, p: Rgba, feedback: F32)
    requires
        rounds(c),
        drops_fractions(c),
        weight(feedback),
    ensures
        ({
            let k = kept_pixel(c, p, feedback);
            &&& k.r == p.r && k.g == p.g && k.b == p.b
            &&& -1real <= (p.a as real) * amount(feedback) - (k.a as real) <= 1real + 1real / 16real
        }),
{
    lemma_single_counts(c, p.a as u64);
    let n = F32::of_count(c, p.a as u64);
    let (a, f) = (p.a as real, amount(feedback));
    lemma_about_times(c, n, a, 0real, 255real, feedback, f, 0real, 1real, 1real / 100real);
    assert(0real <= a * f <= 255real) by (nonlinear_arith)
        requires
            0real <= a <= 255real,
            0real <= f <= 1real,
    ;
    lemma_byte(c, n.mul(c, feedback));
    lemma2_to64();
    let near_one = single(0x3f7f_be77);
    lemma_constant(0x3f7f_be77, 0xff_be77, 126);
    assert(pow2(24) as real == 0x100_0000real);
    assert(amount(near_one) * 0x100_0000real == 0xff_be77real);
    lemma_compared(feedback, near_one);
    if !feedback.lt(near_one) {
        assert(a - 1real <= a * f <= a) by (nonlinear_arith)
            requires
                0real <= a <= 255real,
                998real / 1000real <= f <= 1real,
        ;
    }
}

/// The frames that an echo keeps are the last ones, as many as it waits for.
pub proof fn law_echoes_keep_the_last_frames<K: Fn(Op, Width, u64, u64) -> u64>(c: &Calc<K>, ring: Seq<Image>, delay_frames: int, feedback: F32, image: Image, i: int)
    requires
        0 < delay_frames,
        ring.len() <= delay_frames,
    ensures
        ({
            let kept = kept_ring(c, ring, delay_frames, feedback, image);
            let n = ring.len() as int;
            &&& kept.len() == least(n + 1, delay_frames)
            &&& kept.last().px == image.px.map_values(|p: Rgba| kept_pixel(c, p, feedback))
            &&& 0 <= i < kept.len() - 1 ==> kept[i] == ring[i + n + 1 - kept.len()]
        }),
{
}

/// An echo waits for as many frames as its time has, to the nearest, and for one at least.
pub proof fn law_echoes_wait_in_frames<K: Fn(Op, Width, u64, u64) -> u64>(c: &Calc<K>, time: F32, fps: F32)
    requires
        rounds(c),
        rounds_singles_to_whole(c),
        time.finite() && 0real <= amount(time) <= 64real,
        fps.finite() && 0real <= amount(fps) <= 1024real,
    ensures
        ({
            let n = echo_frames(c, time, fps) as real;
            let want = amount(time) * amount(fps);
            &&& n >= 1real
            &&& want >= 1real ==> size(n - want) <= 1real / 2real + 1real / 16real
        }),
{
    let (t, f) = (amount(time), amount(fps));
    lemma_about_times(c, time, t, 0real, 64real, fps, f, 0real, 1024real, 1real / 40real);
    let p = time.mul(c, fps);
    lemma_product_not_negative(c, time, fps);
    lemma_nearest_size(c, p);
}

/// Rounding to the nearest whole number.
pub(crate) proof fn lemma_nearest_size<K: Fn(Op, Width, u64, u64) -> u64>(c: &Calc<K>, p: F32)
    requires
        rounds(c),
        rounds_singles_to_whole(c),
        p.finite(),
        0real <= amount(p) <= 0x10_0000real,
    ensures
        size((p.round(c).to_size(c) as real) - amount(p)) <= 1real / 2real,
        p.round(c).to_int(c) == p.round(c).to_size(c),
{
    let r = p.round(c);
    assert(r.finite() && size(amount(r) - amount(p)) <= 1real / 2real && r.value() % one() == 0);
    lemma_whole_amount(r);
    let k = r.value() / one();
    if k < 0 {
        assert(k as real <= -1real);
    }
    lemma_floor_size(c, r);
    let n = r.to_size(c);
    assert(k == n) by {
        if k < n {
            assert(k as real + 1real <= n as real);
        }
        if k > n {
            assert(n as real + 1real <= k as real);
        }
    }
}

/// A whole single is its count.
pub(crate) proof fn lemma_whole_amount(x: F32)
    requires
        x.finite(),
        x.value() % one() == 0,
    ensures
        amount(x) == (x.value() / one()) as real,
{
    lemma_pow2_pos(149);
    let k = x.value() / one();
    assert(x.value() == k * one()) by (nonlinear_arith)
        requires
            k == x.value() / one(),
            x.value() % one() == 0,
            one() > 0,
    ;
    lemma_counted(k, one());
    let uu = one() as real;
    lemma_quotient(x.value() as real, uu);
    let a = amount(x);
    assert(a == k as real) by (nonlinear_arith)
        requires
            a * uu == (k as real) * uu,
            uu > 0real,
    ;
}

// --------------------------------------------------------------------- smears

/// A smear keeps three quarters of the past, and nearly all of it at full size.
pub proof fn law_smears_remember<K: Fn(Op, Width, u64, u64) -> u64>(c: &Calc<K>, room: F32)
    requires
        rounds(c),
        room.finite(),
    ensures
        about(
            smear_decay(c, room),
            3real / 4real + 24real / 100real * kept_within(amount(room), 0real, 1real),
            8real / 0x40_0000real,
        ),
{
    let u = 1real / 0x40_0000real;
    lemma_constants();
    lemma2_to64();
    let (base, part) = (single(0x3f40_0000), single(0x3e75_c28f));
    lemma_constant(0x3f40_0000, 0xc0_0000, 126);
    lemma_constant(0x3e75_c28f, 0xf5_c28f, 124);
    assert(pow2(24) as real == 0x100_0000real);
    assert(pow2(26) as real == 0x400_0000real);
    assert(amount(base) * 0x100_0000real == 0xc0_0000real);
    assert(amount(part) * 0x400_0000real == 0xf5_c28freal);
    lemma_about_kept(room, amount(room), 0real, single(0), single(0x3f80_0000));
    let r = room.clamped(single(0), single(0x3f80_0000));
    let k = kept_within(amount(room), 0real, 1real);
    assert(about(part, 24real / 100real, u / 8real));
    lemma_about_times(c, part, 24real / 100real, u / 8real, 1real, r, k, 0real, 1real, 3real * u);
    lemma_about_plus(c, base, 3real / 4real, 0real, part.mul(c, r), 24real / 100real * k, 3real * u, 1real, 6real * u);
}

/// A smear fades by its decay, and takes in as much of the frame as that leaves: its colours as
/// far as they are opaque, and its opacity.
pub proof fn law_smears_take_in_the_frame<K: Fn(Op, Width, u64, u64) -> u64>(c: &Calc<K>, acc: Seq<F32>, px: Seq<Rgba>, decay: F32, j: int)
    requires
        rounds(c),
        weight(decay),
        0 <= j < px.len(),
        acc[4 * j].finite() && 0real <= amount(acc[4 * j]) <= 256real,
        acc[4 * j + 3].finite() && 0real <= amount(acc[4 * j + 3]) <= 256real,
    ensures
        ({
            let fed = smear_fed(c, acc, px, decay);
            let (red, alpha, k) = (px[j].r as real, px[j].a as real, amount(decay));
            &&& fed.len() == 4 * px.len()
            &&& about(fed[4 * j], amount(acc[4 * j]) * k + red * (alpha / 255real) * (1real - k), 1real / 0x400real)
            &&& about(fed[4 * j + 3], amount(acc[4 * j + 3]) * k + alpha * (1real - k), 1real / 0x400real)
        }),
{
    let u = 1real / 0x40_0000real;
    lemma_constants();
    lemma2_to64();
    let p = px[j];
    assert((4 * j) / 4 == j && (4 * j) % 4 == 0 && (4 * j + 3) / 4 == j && (4 * j + 3) % 4 == 3);
    law_channels_are_parts(c, p.a);
    lemma_single_counts(c, p.r as u64);
    let full = single(0x437f_0000);
    lemma_constant(0x437f_0000, 0xff_0000, 134);
    assert(pow2(16) as real == 0x1_0000real);
    assert(amount(full) * 0x1_0000real == 0xff_0000real);
    let (red, alpha, k) = (p.r as real, p.a as real, amount(decay));
    let (n, a) = (F32::of_count(c, p.r as u64), channel(c, p.a));
    lemma_about_times(c, n, red, 0real, 255real, a, alpha / 255real, 3real * u, 1real, 1030real * u);
    lemma_about_times(c, a, alpha / 255real, 3real * u, 1real, full, 255real, 0real, 255real, 1030real * u);
    assert(alpha / 255real * 255real == alpha);
    lemma_fed(c, acc[4 * j], n.mul(c, a), red * (alpha / 255real), decay);
    lemma_fed(c, acc[4 * j + 3], a.mul(c, full), alpha, decay);
}

proof fn lemma_fed<K: Fn(Op, Width, u64, u64) -> u64>(c: &Calc<K>, was: F32, new: F32, r: real, decay: F32)
    requires
        rounds(c),
        weight(decay),
        was.finite() && 0real <= amount(was) <= 256real,
        about(new, r, 1030real / 0x40_0000real),
        -256real <= r <= 256real,
    ensures
        about(
            was.mul(c, decay).add(c, new.mul(c, single(0x3f80_0000).sub(c, decay))),
            amount(was) * amount(decay) + r * (1real - amount(decay)),
            1real / 0x400real,
        ),
{
    let u = 1real / 0x40_0000real;
    lemma_constants();
    let unity = single(0x3f80_0000);
    let k = amount(decay);
    lemma_about_times(c, was, amount(was), 0real, 256real, decay, k, 0real, 1real, 258real * u);
    lemma_about_less(c, unity, 1real, 0real, decay, k, 0real, 1real, 2real * u);
    let n = unity.sub(c, decay);
    lemma_about_times(c, new, r, 1030real * u, 256real, n, 1real - k, 2real * u, 1real, 1810real * u);
    lemma_about_plus(c, was.mul(c, decay), amount(was) * k, 258real * u, new.mul(c, n), r * (1real - k), 1810real * u, 512real, 2700real * u);
}

/// The sum of a run of numbers.
pub open spec fn plain_sum(d: Seq<F32>, from: int, to: int) -> real
    decreases to - from,
{
    if to <= from {
        0real
    } else {
        plain_sum(d, from, to - 1) + amount(d[to - 1])
    }
}

/// Whether a line holds whole numbers from 0 to 255, and is not too long to add up.
pub open spec fn bytes(d: Seq<F32>) -> bool {
    &&& d.len() <= 0x8000
    &&& forall|i: int| 0 <= i < d.len() ==> (#[trigger] d[i]).finite() && whole_byte(amount(d[i]))
}

pub open spec fn whole_byte(x: real) -> bool {
    exists|k: int| 0 <= k <= 255 && x == #[trigger] counted(k)
}

/// A whole number as a number.
pub open spec fn counted(k: int) -> real {
    k as real
}

/// The whole number that a sum of bytes is.
proof fn lemma_whole_sum(d: Seq<F32>, from: int, to: int) -> (k: int)
    requires
        bytes(d),
        0 <= from <= to <= d.len(),
    ensures
        plain_sum(d, from, to) == k as real,
        0 <= k <= 255 * (to - from),
    decreases to - from,
{
    if to <= from {
        0
    } else {
        let k = lemma_whole_sum(d, from, to - 1);
        assert(whole_byte(amount(d[to - 1])));
        let b = choose|b: int| 0 <= b <= 255 && amount(d[to - 1]) == #[trigger] counted(b);
        k + b
    }
}

proof fn lemma_front(d: Seq<F32>, from: int, to: int)
    requires
        0 <= from < to <= d.len(),
    ensures
        plain_sum(d, from, to) == amount(d[from]) + plain_sum(d, from + 1, to),
    decreases to - from,
{
    if from + 1 < to {
        lemma_front(d, from, to - 1);
    } else {
        assert(plain_sum(d, from, from) == 0real);
        assert(plain_sum(d, from + 1, to) == 0real);
    }
}

proof fn lemma_head<K: Fn(Op, Width, u64, u64) -> u64>(c: &Calc<K>, d: Seq<F32>, n: int)
    requires
        rounds(c),
        bytes(d),
        0 <= n <= d.len(),
    ensures
        head_sum(c, d, n).finite(),
        amount(head_sum(c, d, n)) == plain_sum(d, 0, n),
    decreases n,
{
    if n <= 0 {
        lemma_constants();
    } else {
        lemma_head(c, d, n - 1);
        let k = lemma_whole_sum(d, 0, n);
        lemma_single_counts(c, k as u64);
        assert(d[n - 1].finite());
        lemma_exactly(c, head_sum(c, d, n - 1), d[n - 1], F32::of_count(c, k as u64));
    }
}

/// Where the window of a blur starts and ends.
pub open spec fn window_from(radius: int, x: int) -> int {
    if x - radius < 0 {
        0
    } else {
        x - radius
    }
}

pub open spec fn window_to(n: int, radius: int, x: int) -> int {
    if x + radius + 1 < n {
        x + radius + 1
    } else {
        n
    }
}

#[verifier::rlimit(30)]
proof fn lemma_sliding<K: Fn(Op, Width, u64, u64) -> u64>(c: &Calc<K>, d: Seq<F32>, radius: int, x: int)
    requires
        rounds(c),
        bytes(d),
        0 <= radius,
        0 <= x < d.len(),
    ensures
        ({
            let (s, n) = sliding(c, d, radius, x);
            let (a, b) = (window_from(radius, x), window_to(d.len() as int, radius, x));
            &&& s.finite() && n.finite()
            &&& a <= x < b
            &&& amount(s) == plain_sum(d, a, b)
            &&& amount(n) == (b - a) as real
        }),
    decreases x,
{
    let len = d.len() as int;
    let (a, b) = (window_from(radius, x), window_to(len, radius, x));
    if x == 0 {
        let n = least(len, radius + 1);
        lemma_head(c, d, n);
        lemma_single_counts(c, n as u64);
    } else {
        lemma_constants();
        lemma_sliding(c, d, radius, x - 1);
        let (s, n) = sliding(c, d, radius, x - 1);
        let (p, q) = (window_from(radius, x - 1), window_to(len, radius, x - 1));
        let (s1, n1) = if x + radius < len {
            (s.add(c, d[x + radius]), n.add(c, single(0x3f80_0000)))
        } else {
            (s, n)
        };
        if x + radius < len {
            assert(b == q + 1);
            let k = lemma_whole_sum(d, p, b);
            lemma_single_counts(c, k as u64);
            lemma_single_counts(c, (b - p) as u64);
            assert(d[x + radius].finite());
            lemma_exactly(c, s, d[x + radius], F32::of_count(c, k as u64));
            lemma_exactly(c, n, single(0x3f80_0000), F32::of_count(c, (b - p) as u64));
        } else {
            assert(b == q);
        }
        if x - 1 >= radius {
            assert(a == p + 1 && p == x - 1 - radius);
            lemma_front(d, p, b);
            let k = lemma_whole_sum(d, a, b);
            lemma_single_counts(c, k as u64);
            lemma_single_counts(c, (b - a) as u64);
            assert(d[p].finite());
            lemma_exactly(c, s1, d[p], F32::of_count(c, k as u64));
            lemma_exactly(c, n1, single(0x3f80_0000), F32::of_count(c, (b - a) as u64));
        } else {
            assert(a == p);
        }
    }
}

/// A blur takes the mean of what is within its radius, as far as the line goes: of bytes,
/// exactly but for the last division.
pub proof fn law_blurs_take_the_mean<K: Fn(Op, Width, u64, u64) -> u64>(c: &Calc<K>, d: Seq<F32>, radius: int, x: int)
    requires
        rounds(c),
        bytes(d),
        0 <= radius,
        0 <= x < d.len(),
    ensures
        ({
            let (a, b) = (window_from(radius, x), window_to(d.len() as int, radius, x));
            about(line_blurred(c, d, radius)[x], plain_sum(d, a, b) / ((b - a) as real), 1real / 0x1000real)
        }),
        line_blurred(c, d, radius).len() == d.len(),
{
    lemma_sliding(c, d, radius, x);
    let (s, n) = sliding(c, d, radius, x);
    let (a, b) = (window_from(radius, x), window_to(d.len() as int, radius, x));
    let k = lemma_whole_sum(d, a, b);
    let (r, m) = (k as real, (b - a) as real);
    let w = (2real * 255real + 1real) / 0x40_0000real;
    assert(w * m + 0real <= (1real / 0x1000real) * m) by (nonlinear_arith)
        requires
            w == 511real / 0x40_0000real,
            m >= 1real,
    ;
    assert(r <= 255real * m);
    lemma_about_over(c, s, r, 0real, n, m, 255real, 1real / 0x1000real);
}

/// A blur reaches up to six pixels, by the whole part of its damping.
pub proof fn law_damping_blurs<K: Fn(Op, Width, u64, u64) -> u64>(c: &Calc<K>, damp: F32)
    requires
        rounds(c),
        damp.finite(),
    ensures
        ({
            let want = 6real * kept_within(amount(damp), 0real, 1real);
            want - 1real - 1real / 0x1_0000real <= smear_radius(c, damp) as real <= want + 1real / 0x1_0000real
        }),
{
    lemma_constants();
    lemma2_to64();
    let six = single(0x40c0_0000);
    lemma_constant(0x40c0_0000, 0xc0_0000, 129);
    assert(pow2(21) as real == 0x20_0000real);
    assert(amount(six) * 0x20_0000real == 0xc0_0000real);
    lemma_about_kept(damp, amount(damp), 0real, single(0), single(0x3f80_0000));
    let d = damp.clamped(single(0), single(0x3f80_0000));
    let k = kept_within(amount(damp), 0real, 1real);
    lemma_about_times(c, d, k, 0real, 1real, six, 6real, 0real, 6real, 8real / 0x40_0000real);
    lemma_product_not_negative(c, d, six);
    lemma_floor_size(c, d.mul(c, six));
}

} // verus!
