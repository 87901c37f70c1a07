//! What colours mix to, with arithmetic that rounds to nearest: how layers and grains lie over
//! one another, and where a pixel of a frame is taken from.
use crate::calc::{Calc, Op, Width};
use crate::clocks::rounds_to_whole;
use crate::num::{single, F32, F64};
use crate::reals::{
    about, amount, amount_of_double, kept_within, lemma_about_less, lemma_about_over, lemma_about_plus, lemma_about_times, lemma_about_times_double,
    lemma_constant, lemma_constants, lemma_counted, lemma_greater, lemma_minus, lemma_order, lemma_quotient, lemma_widened, size,
};
use crate::rounding::{one, rounds};
use crate::rounding_double::{rounds_doubles, unit};
use crate::saved::drops_fractions;
use crate::spread::lemma_single_counts;
use crate::video::{across, channel, down, layer_channel, layer_weight, placement, stacked_alpha, texel, GrainDraw, Placement, VideoClip};
use vstd::arithmetic::power2::{lemma2_to64, lemma_pow2_pos, pow2};
use vstd::prelude::*;

verus! {

// ---------------------------------------------------------------------- bytes

/// A byte is the whole part of a number, from 0 to 255.
pub(crate) proof fn lemma_byte<K: Fn(Op, Width, u64, u64) -> u64>(c: &Calc<K>, x: F32)
    requires
        drops_fractions(c),
        x.finite(),
        -0x1000real <= amount(x) <= 0x1000real,
    ensures
        (x.to_u8(c) as real) <= kept_within(amount(x), 0real, 255real) <= (x.to_u8(c) as real) + 1real,
{
    reveal(drops_fractions);
    lemma_pow2_pos(149);
    let (u, uu, v, a) = (one(), one() as real, x.value(), amount(x));
    lemma_order(F32 { bits: 0 }, x);
    lemma_quotient(v as real, uu);
    assert(-(0x1000real * uu) <= a * uu <= 0x1000real * uu) by (nonlinear_arith)
        requires
            -0x1000real <= a <= 0x1000real,
            uu > 0real,
    ;
    assert(-(0x1000 * u) <= v <= 0x1000 * u);
    let w = if v >= 0 {
        v
    } else {
        -v
    };
    let (k, m) = (w / u, w % u);
    assert(w == k * u + m && 0 <= m < u && 0 <= k <= 0x1000) by (nonlinear_arith)
        requires
            k == w / u,
            m == w % u,
            u > 0,
            0 <= w <= 0x1000 * u,
    ;
    lemma_counted(k, u);
    let (kk, mm) = (k as real, m as real);
    let b = if v >= 0 {
        a
    } else {
        -a
    };
    assert((-a) * uu == -(a * uu)) by (nonlinear_arith);
    assert(kk <= b < kk + 1real) by (nonlinear_arith)
        requires
            b * uu == kk * uu + mm,
            0real <= mm < uu,
            uu > 0real,
    ;
    assert(x.to_int(c) == if v >= 0 {
        k
    } else {
        -k
    });
}

proof fn lemma_full()
    ensures
        single(0x437f_0000).finite(),
        amount(single(0x437f_0000)) == 255real,
{
    lemma2_to64();
    lemma_constant(0x437f_0000, 0xff_0000, 134);
    assert(pow2(16) as real == 0x1_0000real);
    assert(amount(single(0x437f_0000)) * 0x1_0000real == 0xff_0000real);
}

/// A channel is its part of 255.
pub proof fn law_channels_are_parts<K: Fn(Op, Width, u64, u64) -> u64>(c: &Calc<K>, v: u8)
    requires
        rounds(c),
    ensures
        about(channel(c, v), (v as real) / 255real, 3real / 0x40_0000real),
{
    lemma_full();
    lemma_single_counts(c, v as u64);
    let n = F32::of_count(c, v as u64);
    lemma_about_over(c, n, v as real, 0real, single(0x437f_0000), 255real, 1real, 3real / 0x40_0000real);
}

// --------------------------------------------------------------------- layers

/// Whether a single is a weight: from zero to one.
pub open spec fn weight(x: F32) -> bool {
    x.finite() && 0real <= amount(x) <= 1real
}

/// What a layer makes of a channel: laid over it as far as it is opaque, or added to it up to
/// full brightness, and in between a part of each.
pub open spec fn laid_over(d: real, s: real, la: real, add: real) -> real {
    let sum = d + s * la;
    (d * (1real - la) + s * la) * (1real - add) + (if sum < 255real {
        sum
    } else {
        255real
    }) * add
}

/// A layer is laid over a channel, or added to it, to the byte below.
#[verifier::rlimit(40)]
pub proof fn law_layers_lie_over_or_add<K: Fn(Op, Width, u64, u64) -> u64>(c: &Calc<K>, d: u8, s: u8, la: F32, add: F32)
    requires
        rounds(c),
        drops_fractions(c),
        weight(la),
        weight(add),
    ensures
        -1real / 0x200real <= laid_over(d as real, s as real, amount(la), amount(add)) - (layer_channel(c, d, s, la, add) as real) <= 1real + 1real
            / 0x200real,
{
    let u = 1real / 0x40_0000real;
    lemma_constants();
    lemma_full();
    lemma_single_counts(c, d as u64);
    lemma_single_counts(c, s as u64);
    let unity = single(0x3f80_0000);
    let (dd, ss, l, a) = (d as real, s as real, amount(la), amount(add));
    let (x, y) = (F32::of_count(c, d as u64), F32::of_count(c, s as u64));
    lemma_about_less(c, unity, 1real, 0real, la, l, 0real, 1real, 2real * u);
    lemma_about_less(c, unity, 1real, 0real, add, a, 0real, 1real, 2real * u);
    let (nl, na) = (unity.sub(c, la), unity.sub(c, add));
    lemma_about_times(c, x, dd, 0real, 255real, nl, 1real - l, 2real * u, 1real, 770real * u);
    lemma_about_times(c, y, ss, 0real, 255real, la, l, 0real, 1real, 257real * u);
    let (p, q) = (x.mul(c, nl), y.mul(c, la));
    lemma_about_plus(c, p, dd * (1real - l), 770real * u, q, ss * l, 257real * u, 510real, 1600real * u);
    let over = p.add(c, q);
    lemma_about_times(c, over, dd * (1real - l) + ss * l, 1600real * u, 510real, na, 1real - a, 2real * u, 1real, 3200real * u);
    lemma_about_plus(c, x, dd, 0real, q, ss * l, 257real * u, 510real, 800real * u);
    let sum = x.add(c, q);
    let full = single(0x437f_0000);
    lemma_greater(sum, full);
    let kept = sum.lesser(full);
    let want = if dd + ss * l < 255real {
        dd + ss * l
    } else {
        255real
    };
    assert(about(kept, want, 800real * u));
    assert(0real <= ss * l) by (nonlinear_arith)
        requires
            ss >= 0real,
            l >= 0real,
    ;
    lemma_about_times(c, kept, want, 800real * u, 255real, add, a, 0real, 1real, 1100real * u);
    let (r1, r2) = ((dd * (1real - l) + ss * l) * (1real - a), want * a);
    lemma_about_plus(c, over.mul(c, na), r1, 3200real * u, kept.mul(c, add), r2, 1100real * u, 765real, 5200real * u);
    let out = over.mul(c, na).add(c, kept.mul(c, add));
    lemma_byte(c, out);
    lemma_laid_over_bounds(dd, ss, l, a);
}

/// What is laid over a channel stays a channel.
proof fn lemma_laid_over_bounds(d: real, s: real, la: real, add: real)
    requires
        0real <= d <= 255real,
        0real <= s <= 255real,
        0real <= la <= 1real,
        0real <= add <= 1real,
    ensures
        0real <= laid_over(d, s, la, add) <= 255real,
{
    let (over, sum) = (d * (1real - la) + s * la, d + s * la);
    assert(0real <= over <= 255real && sum >= 0real) by (nonlinear_arith)
        requires
            over == d * (1real - la) + s * la,
            sum == d + s * la,
            0real <= d <= 255real,
            0real <= s <= 255real,
            0real <= la <= 1real,
    ;
    let k = if sum < 255real {
        sum
    } else {
        255real
    };
    assert(0real <= over * (1real - add) + k * add <= 255real) by (nonlinear_arith)
        requires
            0real <= over <= 255real,
            0real <= k <= 255real,
            0real <= add <= 1real,
    ;
}

/// A layer's pixel weighs as much as it is opaque, times the layer's opacity.
pub proof fn law_opacity_weighs_layers<K: Fn(Op, Width, u64, u64) -> u64>(c: &Calc<K>, a: u8, opacity: F32)
    requires
        rounds(c),
        weight(opacity),
    ensures
        about(layer_weight(c, a, opacity), (a as real) / 255real * amount(opacity), 6real / 0x40_0000real),
{
    let u = 1real / 0x40_0000real;
    law_channels_are_parts(c, a);
    lemma_about_times(c, channel(c, a), (a as real) / 255real, 3real * u, 1real, opacity, amount(opacity), 0real, 1real, 6real * u);
}

/// Where one layer lies over another, what shines through the upper one is as opaque as the
/// lower one.
pub proof fn law_opacities_stack<K: Fn(Op, Width, u64, u64) -> u64>(c: &Calc<K>, a: F32, da: F32)
    requires
        rounds(c),
        weight(a),
        weight(da),
        amount(a) >= 1real / 0x1000real,
    ensures
        about(stacked_alpha(c, a, da), amount(a) + amount(da) * (1real - amount(a)), 12real / 0x40_0000real),
        amount(stacked_alpha(c, a, da)) >= 1real / 0x2000real,
{
    let u = 1real / 0x40_0000real;
    lemma_constants();
    lemma2_to64();
    let (unity, few) = (single(0x3f80_0000), single(0x3586_37bd));
    lemma_constant(0x3586_37bd, 0x86_37bd, 107);
    vstd::arithmetic::power2::lemma_pow2_adds(32, 11);
    assert(pow2(43) as real == 0x800_0000_0000real);
    assert(amount(few) * 0x800_0000_0000real == 0x86_37bdreal);
    let (x, y) = (amount(a), amount(da));
    lemma_about_less(c, unity, 1real, 0real, a, x, 0real, 1real, 2real * u);
    let n = unity.sub(c, a);
    lemma_about_times(c, da, y, 0real, 1real, n, 1real - x, 2real * u, 1real, 5real * u);
    let p = da.mul(c, n);
    assert(0real <= y * (1real - x) <= 1real) by (nonlinear_arith)
        requires
            0real <= y <= 1real,
            0real <= x <= 1real,
    ;
    lemma_about_plus(c, a, x, 0real, p, y * (1real - x), 5real * u, 2real, 9real * u);
    lemma_greater(a.add(c, p), few);
}

// ------------------------------------------------------------ where pixels are

/// Which frame a clip shows: they follow one another at the frame rate, and go round at the end.
pub proof fn law_frames_follow_the_clock<K: Fn(Op, Width, u64, u64) -> u64>(c: &Calc<K>, clip: VideoClip, t: F64, i: int)
    requires
        rounds_doubles(c),
        rounds_to_whole(c),
        floors_doubles(c),
        clip.plays(),
        clip.fps.finite() && 0real < amount(clip.fps) <= 0x1000real,
        t.finite() && size(amount_of_double(t)) <= 0x10_0000real,
        -0x1_0000_0000 < i < 0x1_0000_0000,
        (i as real) + 1real / 0x1000real <= amount_of_double(t) * amount(clip.fps) <= (i as real) + 1real - 1real / 0x1000real,
    ensures
        clip.shown(c, t) == i % clip.frames@.len() as int,
{
    lemma_widened(c, clip.fps);
    let f = clip.fps.to_f64(c);
    let (x, k) = (amount_of_double(t), amount(clip.fps));
    lemma_about_times_double(c, t, x, 0real, 0x10_0000real, f, k, 0real, 0x1000real, 1real / 0x2000real);
    lemma_floor_double(c, t.mul(c, f), i);
}

/// Whether an arithmetic rounds doubles down exactly.
pub open spec fn floors_doubles<K: Fn(Op, Width, u64, u64) -> u64>(c: &Calc<K>) -> bool {
    forall|a: F64|
        a.finite() ==> (#[trigger] a.floor(c)).finite() && a.floor(c).value() == a.value() / unit() * unit()
}

/// Rounding down gives the whole number below.
pub(crate) proof fn lemma_floor_double<K: Fn(Op, Width, u64, u64) -> u64>(c: &Calc<K>, a: F64, i: int)
    requires
        rounds_to_whole(c),
        floors_doubles(c),
        a.finite(),
        -0x1_0000_0000 < i < 0x1_0000_0000,
        i as real <= amount_of_double(a) < i as real + 1real,
    ensures
        a.floor(c).to_int(c) == i,
{
    lemma_pow2_pos(1074);
    let (u, uu, v, x, ii) = (unit(), unit() as real, a.value(), amount_of_double(a), i as real);
    lemma_quotient(v as real, uu);
    lemma_counted(i, u);
    assert(ii * uu <= x * uu < ii * uu + uu) by (nonlinear_arith)
        requires
            ii <= x < ii + 1real,
            uu > 0real,
    ;
    let n = i * u;
    assert(n <= v < n + u);
    assert(v / u == i) by (nonlinear_arith)
        requires
            n == i * u,
            n <= v < n + u,
            u > 0,
    ;
    let w = a.floor(c).value();
    assert(w == n);
    assert(w % u == 0 && w / u == i) by (nonlinear_arith)
        requires
            w == i * u,
            u > 0,
    ;
    reveal(rounds_to_whole);
}

/// A picture is placed on a canvas with its middle where its square's middle is, as wide and
/// as high as its square is of the canvas.
pub proof fn law_squares_become_pixels<K: Fn(Op, Width, u64, u64) -> u64>(c: &Calc<K>, d: GrainDraw, ow: F32, oh: F32)
    requires
        rounds(c),
        ow.finite() && 1real <= amount(ow) <= 0x4000real,
        oh.finite() && 1real <= amount(oh) <= 0x4000real,
        d.dest.x.finite() && size(amount(d.dest.x)) <= 16real,
        d.dest.y.finite() && size(amount(d.dest.y)) <= 16real,
        d.dest.w.finite() && 0real <= amount(d.dest.w) <= 16real,
        d.dest.h.finite() && 0real <= amount(d.dest.h) <= 16real,
    ensures
        ({
            let p = placement(c, d, ow, oh);
            let (rw, rh) = (amount(d.dest.w) * amount(ow) / 2real, amount(d.dest.h) * amount(oh) / 2real);
            &&& about(p.cx, (amount(d.dest.x) + amount(d.dest.w) / 2real) * amount(ow), 1real)
            &&& about(p.cy, (amount(d.dest.y) + amount(d.dest.h) / 2real) * amount(oh), 1real)
            &&& about(
                p.rw,
                if rw < 1real {
                    1real
                } else {
                    rw
                },
                1real,
            )
            &&& about(
                p.rh,
                if rh < 1real {
                    1real
                } else {
                    rh
                },
                1real,
            )
            &&& p.sin_r == d.rotation.sin(c)
            &&& p.cos_r == d.rotation.cos(c)
        }),
{
    lemma_side(c, d.dest.x, d.dest.w, ow);
    lemma_side(c, d.dest.y, d.dest.h, oh);
}

proof fn lemma_side<K: Fn(Op, Width, u64, u64) -> u64>(c: &Calc<K>, x: F32, w: F32, n: F32)
    requires
        rounds(c),
        n.finite() && 1real <= amount(n) <= 0x4000real,
        x.finite() && size(amount(x)) <= 16real,
        w.finite() && 0real <= amount(w) <= 16real,
    ensures
        ({
            let two = single(0x4000_0000);
            let r = amount(w) * amount(n) / 2real;
            &&& about(x.add(c, w.div(c, two)).mul(c, n), (amount(x) + amount(w) / 2real) * amount(n), 1real)
            &&& about(
                w.mul(c, n).div(c, two).max(single(0x3f80_0000)),
                if r < 1real {
                    1real
                } else {
                    r
                },
                1real,
            )
        }),
{
    let u = 1real / 0x40_0000real;
    lemma_constants();
    let two = single(0x4000_0000);
    let (a, b, k) = (amount(x), amount(w), amount(n));
    lemma_about_over(c, w, b, 0real, two, 2real, 8real, 17real * u);
    lemma_about_plus(c, x, a, 0real, w.div(c, two), b / 2real, 17real * u, 24real, 43real * u);
    lemma_about_times(c, x.add(c, w.div(c, two)), a + b / 2real, 43real * u, 24real, n, k, 0real, 0x4000real, 1real);
    lemma_about_times(c, w, b, 0real, 16real, n, k, 0real, 0x4000real, 1real / 8real);
    assert(0real <= b * k <= 0x4_0000real) by (nonlinear_arith)
        requires
            0real <= b <= 16real,
            0real <= k <= 0x4000real,
    ;
    lemma_about_over(c, w.mul(c, n), b * k, 1real / 8real, two, 2real, 0x2_0000real, 1real / 2real);
    lemma_greater(w.mul(c, n).div(c, two), single(0x3f80_0000));
}

/// A pixel is found in a picture by turning it back: from the middle, by how far it lies along
/// the picture's sides.
pub proof fn law_pixels_are_turned_back<K: Fn(Op, Width, u64, u64) -> u64>(c: &Calc<K>, p: Placement, x: u32, y: u32)
    requires
        rounds(c),
        x <= 0x4000 && y <= 0x4000,
        p.cx.finite() && size(amount(p.cx)) <= 0x4000real,
        p.cy.finite() && size(amount(p.cy)) <= 0x4000real,
        p.rw.finite() && 1real <= amount(p.rw),
        p.rh.finite() && 1real <= amount(p.rh),
        p.sin_r.finite() && size(amount(p.sin_r)) <= 1real,
        p.cos_r.finite() && size(amount(p.cos_r)) <= 1real,
    ensures
        ({
            let (dx, dy) = (x as real + 1real / 2real - amount(p.cx), y as real + 1real / 2real - amount(p.cy));
            let (s, k) = (amount(p.sin_r), amount(p.cos_r));
            &&& about(across(c, p, x, y), (dx * k + dy * s) / amount(p.rw) / 2real + 1real / 2real, 1real / 4real)
            &&& about(down(c, p, x, y), (-dx * s + dy * k) / amount(p.rh) / 2real + 1real / 2real, 1real / 4real)
        }),
{
    lemma_constants();
    lemma_off(c, x, p.cx);
    lemma_off(c, y, p.cy);
    let half = single(0x3f00_0000);
    let (ax, ay) = (F32::of_count(c, x as u64).add(c, half).sub(c, p.cx), F32::of_count(c, y as u64).add(c, half).sub(c, p.cy));
    let (dx, dy) = (x as real + 1real / 2real - amount(p.cx), y as real + 1real / 2real - amount(p.cy));
    lemma_minus(ax);
    lemma_along(c, ax, dx, p.cos_r, ay, dy, p.sin_r, p.rw);
    lemma_along(c, ax.minus(), -dx, p.sin_r, ay, dy, p.cos_r, p.rh);
}

proof fn lemma_off<K: Fn(Op, Width, u64, u64) -> u64>(c: &Calc<K>, x: u32, m: F32)
    requires
        rounds(c),
        x <= 0x4000,
        m.finite() && size(amount(m)) <= 0x4000real,
    ensures
        about(
            F32::of_count(c, x as u64).add(c, single(0x3f00_0000)).sub(c, m),
            x as real + 1real / 2real - amount(m),
            1real / 64real,
        ),
        size(x as real + 1real / 2real - amount(m)) <= 0x8001real,
{
    lemma_constants();
    lemma_single_counts(c, x as u64);
    let half = single(0x3f00_0000);
    lemma_about_plus(c, F32::of_count(c, x as u64), x as real, 0real, half, 1real / 2real, 0real, 0x4001real, 1real / 200real);
    lemma_about_less(
        c,
        F32::of_count(c, x as u64).add(c, half),
        x as real + 1real / 2real,
        1real / 200real,
        m,
        amount(m),
        0real,
        0x8001real,
        1real / 64real,
    );
}

proof fn lemma_along<K: Fn(Op, Width, u64, u64) -> u64>(c: &Calc<K>, ax: F32, dx: real, k: F32, ay: F32, dy: real, s: F32, r: F32)
    requires
        rounds(c),
        about(ax, dx, 1real / 64real) && size(dx) <= 0x8001real,
        about(ay, dy, 1real / 64real) && size(dy) <= 0x8001real,
        k.finite() && size(amount(k)) <= 1real,
        s.finite() && size(amount(s)) <= 1real,
        r.finite() && 1real <= amount(r),
    ensures
        about(
            ax.mul(c, k).add(c, ay.mul(c, s)).div(c, r).mul(c, single(0x3f00_0000)).add(c, single(0x3f00_0000)),
            (dx * amount(k) + dy * amount(s)) / amount(r) / 2real + 1real / 2real,
            1real / 4real,
        ),
{
    lemma_constants();
    let half = single(0x3f00_0000);
    let (kk, ss) = (amount(k), amount(s));
    lemma_about_times(c, ax, dx, 1real / 64real, 0x8001real, k, kk, 0real, 1real, 1real / 40real);
    lemma_about_times(c, ay, dy, 1real / 64real, 0x8001real, s, ss, 0real, 1real, 1real / 40real);
    let (p, q) = (ax.mul(c, k), ay.mul(c, s));
    let d = dx * kk + dy * ss;
    lemma_about_plus(c, p, dx * kk, 1real / 40real, q, dy * ss, 1real / 40real, 0x1_0002real, 1real / 12real);
    let t = p.add(c, q);
    lemma_about_over(c, t, d, 1real / 12real, r, 1real, 0x1_0002real, 1real / 8real);
    let g = t.div(c, r);
    lemma_about_times(c, g, d / amount(r), 1real / 8real, 0x1_0002real, half, 1real / 2real, 0real, 1real, 3real / 16real);
    lemma_about_plus(c, g.mul(c, half), d / amount(r) / 2real, 3real / 16real, half, 1real / 2real, 0real, 0x1_0004real, 1real / 4real);
}

/// A place in a patch is found in the source's frame: as far along as the patch starts, and
/// the place's part of it further.
pub proof fn law_patches_are_read_through<K: Fn(Op, Width, u64, u64) -> u64>(c: &Calc<K>, from: F32, q: F32, span: F32, n: u32)
    requires
        rounds(c),
        drops_fractions(c),
        weight(from),
        weight(q),
        weight(span),
        1 <= n <= 0x4000,
    ensures
        ({
            let want = (amount(from) + amount(q) * amount(span)) * (n as real - 1real);
            -1real / 16real <= want - (texel(c, from, q, span, n) as real) <= 1real + 1real / 16real
        }),
{
    let u = 1real / 0x40_0000real;
    lemma_constants();
    lemma_single_counts(c, n as u64);
    let unity = single(0x3f80_0000);
    let (f, k, s, m) = (amount(from), amount(q), amount(span), n as real);
    lemma_about_times(c, q, k, 0real, 1real, span, s, 0real, 1real, 2real * u);
    assert(0real <= k * s <= 1real) by (nonlinear_arith)
        requires
            0real <= k <= 1real,
            0real <= s <= 1real,
    ;
    lemma_about_plus(c, from, f, 0real, q.mul(c, span), k * s, 2real * u, 2real, 6real * u);
    let a = from.add(c, q.mul(c, span));
    lemma_about_less(c, F32::of_count(c, n as u64), m, 0real, unity, 1real, 0real, 0x4000real, 1real / 200real);
    let b = F32::of_count(c, n as u64).sub(c, unity);
    lemma_about_times(c, a, f + k * s, 6real * u, 2real, b, m - 1real, 1real / 200real, 0x4000real, 1real / 20real);
    assert(0real <= (f + k * s) * (m - 1real) <= 0x8000real) by (nonlinear_arith)
        requires
            0real <= f + k * s <= 2real,
            0real <= m - 1real <= 0x4000real,
    ;
    lemma_truncated_single(c, a.mul(c, b));
}

/// The whole part of a single.
pub(crate) proof fn lemma_truncated_single<K: Fn(Op, Width, u64, u64) -> u64>(c: &Calc<K>, x: F32)
    requires
        drops_fractions(c),
        x.finite(),
        -1real < amount(x) <= 0x10_0000real,
    ensures
        (x.to_u32(c) as real) <= amount(x) < (x.to_u32(c) as real) + 1real || (x.to_u32(c) == 0 && amount(x) <= 0real),
{
    reveal(drops_fractions);
    lemma_pow2_pos(149);
    let (u, uu, v, a) = (one(), one() as real, x.value(), amount(x));
    lemma_order(F32 { bits: 0 }, x);
    lemma_quotient(v as real, uu);
    assert(-uu < a * uu <= 0x10_0000real * uu) by (nonlinear_arith)
        requires
            -1real < a <= 0x10_0000real,
            uu > 0real,
    ;
    assert(-u < v <= 0x10_0000 * u);
    let w = if v >= 0 {
        v
    } else {
        -v
    };
    let (k, m) = (w / u, w % u);
    assert(w == k * u + m && 0 <= m < u && 0 <= k <= 0x10_0000 && (w < u ==> k == 0)) by (nonlinear_arith)
        requires
            k == w / u,
            m == w % u,
            u > 0,
            0 <= w <= 0x10_0000 * u,
    ;
    lemma_counted(k, u);
    let (kk, mm) = (k as real, m as real);
    if v >= 0 {
        assert(kk <= a < kk + 1real) by (nonlinear_arith)
            requires
                a * uu == kk * uu + mm,
                0real <= mm < uu,
                uu > 0real,
        ;
    }
}

} // verus!
