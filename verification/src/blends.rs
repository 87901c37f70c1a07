//! What grains leave on a frame, with arithmetic that rounds to nearest.
use crate::calc::{Calc, Op, Width};
use crate::fx_video::{faint_ghost, ghosted_pixel, smear_colour, smeared_pixel, under_alpha};
use crate::num::{double, single, F32, F64};
use crate::reals::{
    about, about_double, amount, amount_of_double, kept_within, lemma_about_less, lemma_about_over, lemma_about_plus, lemma_about_plus_double, lemma_about_times,
    lemma_about_times_double, lemma_bounded, lemma_compared, lemma_constant, lemma_constant_double, lemma_constants, lemma_counts, lemma_greater, lemma_quotient,
};
use crate::rounding::rounds;
use crate::rounding_double::rounds_doubles;
use crate::saved::drops_fractions;
use crate::shades::{lemma_byte, weight};
use crate::spread::lemma_single_counts;
use crate::video::{grain_blended, grain_channel, grain_over, hue_turned, luma, pattern_boost, pattern_fade, stacked_alpha, ColorFilter, GrainDraw, Rgba};
use vstd::arithmetic::power2::{lemma2_to64, lemma_pow2_adds, pow2};
use vstd::prelude::*;

verus! {

/// What a channel of a grain and the channel under it make: the one over the other, by how
/// opaque both are, or both added up to full brightness, and in between a part of each.
pub open spec fn blended(s: real, d: real, a: real, da: real, o: real, add: real) -> real {
    let sum = d * da + s * a;
    (s * a + d * da * (1real - a)) / o * (1real - add) + (if sum < 255real {
        sum
    } else {
        255real
    }) * add
}

/// The grain over what is under it, before the parts are weighed.
proof fn lemma_over_under<K: Fn(Op, Width, u64, u64) -> u64>(c: &Calc<K>, s: F32, d: F32, a: F32, da: F32, sr: real, dr: real, ar: real, dar: real)
    requires
        rounds(c),
        s.finite() && amount(s) == sr && 0real <= sr <= 255real,
        d.finite() && amount(d) == dr && 0real <= dr <= 255real,
        weight(a) && amount(a) == ar,
        weight(da) && amount(da) == dar,
    ensures
        ({
            let u = 1real / 0x40_0000real;
            let under = d.mul(c, da).mul(c, single(0x3f80_0000).sub(c, a));
            &&& about(s.mul(c, a).add(c, under), sr * ar + dr * dar * (1real - ar), 2300real * u)
            &&& about(d.mul(c, da).add(c, s.mul(c, a)), dr * dar + sr * ar, 1100real * u)
            &&& 0real <= sr * ar + dr * dar * (1real - ar) <= 255real * (ar + dar * (1real - ar))
            &&& 0real <= dr * dar + sr * ar <= 510real
        }),
{
    let u = 1real / 0x40_0000real;
    lemma_constants();
    let unity = single(0x3f80_0000);
    lemma_about_times(c, s, sr, 0real, 255real, a, ar, 0real, 1real, 257real * u);
    lemma_about_times(c, d, dr, 0real, 255real, da, dar, 0real, 1real, 257real * u);
    let (p, q) = (sr * ar, dr * dar);
    assert(0real <= p <= 255real * ar && 0real <= q <= 255real * dar && p <= 255real && q <= 255real) by (nonlinear_arith)
        requires
            p == sr * ar,
            q == dr * dar,
            0real <= sr <= 255real,
            0real <= dr <= 255real,
            0real <= ar <= 1real,
            0real <= dar <= 1real,
    ;
    lemma_about_less(c, unity, 1real, 0real, a, ar, 0real, 1real, 3real * u);
    let e = unity.sub(c, a);
    let er = 1real - ar;
    lemma_about_times(c, d.mul(c, da), q, 257real * u, 255real, e, er, 3real * u, 1real, 1300real * u);
    let w = q * er;
    assert(0real <= w <= 255real * (dar * er) && w <= 255real) by (nonlinear_arith)
        requires
            w == q * er,
            0real <= q <= 255real * dar,
            q <= 255real,
            0real <= er <= 1real,
    ;
    lemma_about_plus(c, s.mul(c, a), p, 257real * u, d.mul(c, da).mul(c, e), w, 1300real * u, 510real, 2300real * u);
    lemma_about_plus(c, d.mul(c, da), q, 257real * u, s.mul(c, a), p, 257real * u, 510real, 1100real * u);
}

/// A quotient by how opaque both are.
proof fn lemma_weighed<K: Fn(Op, Width, u64, u64) -> u64>(c: &Calc<K>, x: F32, xr: real, out: F32, o: real)
    requires
        rounds(c),
        about(x, xr, 2300real / 0x40_0000real),
        about(out, o, 12real / 0x40_0000real),
        1real / 16real <= o <= 1real,
        0real <= xr <= 255real * o,
    ensures
        about(x.div(c, out), xr / o, 1real / 40real),
        0real <= xr / o <= 255real,
{
    let u = 1real / 0x40_0000real;
    let y = amount(out);
    let w = (2real * 256real + 1real) / 0x40_0000real;
    assert(w * y + 2300real * u <= (40000real * u) * y) by (nonlinear_arith)
        requires
            w == 513real * u,
            y >= 1real / 17real,
            u == 1real / 0x40_0000real,
    ;
    lemma_about_over(c, x, xr, 2300real * u, out, y, 256real, 40000real * u);
    lemma_quotient(xr, y);
    lemma_quotient(xr, o);
    let (p, q) = (xr / y, xr / o);
    assert(0real <= q <= 255real) by (nonlinear_arith)
        requires
            q * o == xr,
            0real <= xr <= 255real * o,
            o > 0real,
    ;
    assert((p - q) * y == q * (o - y)) by (nonlinear_arith)
        requires
            p * y == xr,
            q * o == xr,
    ;
    lemma_bounded(q, 255real, o - y, 12real * u);
    assert(-53000real * u <= p - q <= 53000real * u) by (nonlinear_arith)
        requires
            -3060real * u <= (p - q) * y <= 3060real * u,
            y >= 1real / 17real,
            u > 0real,
    ;
}

/// A grain's channel lies over what is under it or is added to it, to the byte below.
pub proof fn law_grains_lie_over_or_add<K: Fn(Op, Width, u64, u64) -> u64>(c: &Calc<K>, s: u8, d: u8, a: F32, da: F32, out_a: F32, additive: F32)
    requires
        rounds(c),
        drops_fractions(c),
        weight(a),
        weight(da),
        weight(additive),
        about(out_a, amount(a) + amount(da) * (1real - amount(a)), 12real / 0x40_0000real),
        amount(a) + amount(da) * (1real - amount(a)) >= 1real / 16real,
    ensures
        ({
            let o = amount(a) + amount(da) * (1real - amount(a));
            let want = blended(s as real, d as real, amount(a), amount(da), o, amount(additive));
            -1real / 16real <= want - (grain_channel(c, s, d, a, da, out_a, additive) as real) <= 1real + 1real / 16real
        }),
{
    let u = 1real / 0x40_0000real;
    lemma_constants();
    lemma2_to64();
    lemma_single_counts(c, s as u64);
    lemma_single_counts(c, d as u64);
    let (unity, full) = (single(0x3f80_0000), single(0x437f_0000));
    lemma_constant(0x437f_0000, 0xff_0000, 134);
    assert(pow2(16) as real == 0x1_0000real);
    assert(amount(full) * 0x1_0000real == 0xff_0000real);
    let (m, n) = (F32::of_count(c, s as u64), F32::of_count(c, d as u64));
    let (sr, dr, ar, dar, k) = (s as real, d as real, amount(a), amount(da), amount(additive));
    let o = ar + dar * (1real - ar);
    assert(o <= 1real) by (nonlinear_arith)
        requires
            o == ar + dar * (1real - ar),
            0real <= ar <= 1real,
            0real <= dar <= 1real,
    ;
    lemma_over_under(c, m, n, a, da, sr, dr, ar, dar);
    let x = m.mul(c, a).add(c, n.mul(c, da).mul(c, unity.sub(c, a)));
    let xr = sr * ar + dr * dar * (1real - ar);
    lemma_weighed(c, x, xr, out_a, o);
    let q = x.div(c, out_a);
    let qr = xr / o;
    lemma_about_less(c, unity, 1real, 0real, additive, k, 0real, 1real, 3real * u);
    let rest = unity.sub(c, additive);
    let kr = 1real - k;
    lemma_about_times(c, q, qr, 1real / 40real, 255real, rest, kr, 3real * u, 1real, 1real / 36real);
    let sum = n.mul(c, da).add(c, m.mul(c, a));
    let sumr = dr * dar + sr * ar;
    lemma_greater(sum, full);
    let least = if sumr < 255real {
        sumr
    } else {
        255real
    };
    assert(about(sum.min(full), least, 1100real * u));
    lemma_about_times(c, sum.min(full), least, 1100real * u, 255real, additive, k, 0real, 1real, 1500real * u);
    let (v, w) = (qr * kr, least * k);
    assert(0real <= v + w <= 255real) by (nonlinear_arith)
        requires
            v == qr * kr,
            w == least * k,
            kr == 1real - k,
            0real <= qr <= 255real,
            0real <= least <= 255real,
            0real <= k <= 1real,
    ;
    lemma_about_plus(c, q.mul(c, rest), v, 1real / 36real, sum.min(full).mul(c, additive), w, 1500real * u, 255real, 1real / 32real);
    lemma_byte(c, q.mul(c, rest).add(c, sum.min(full).mul(c, additive)));
}

/// Where a grain is drawn on a pixel, the pixel becomes what the grain's turned colour makes of
/// it, as opaque as the grain and the filter let it be.
pub proof fn law_filters_thin_grains<K: Fn(Op, Width, u64, u64) -> u64>(c: &Calc<K>, d: GrainDraw, f: ColorFilter, additive: F32, p: Rgba, was: Rgba) -> (a: F32)
    requires
        rounds(c),
        weight(d.alpha),
        weight(f.multiplier(c, p.r, p.g, p.b)),
    ensures
        about(a, amount(d.alpha) * amount(f.multiplier(c, p.r, p.g, p.b)), 3real / 0x40_0000real),
        amount(a) <= 2real / 1000real ==> grain_blended(c, d, Some(f), additive, p, was) == was,
        amount(a) >= 4real / 1000real ==> ({
            let (r, g, b) = hue_turned(c, p, d.hue_shift);
            let da = crate::video::channel(c, was.a);
            grain_blended(c, d, Some(f), additive, p, was) == grain_over(c, r, g, b, was, a, da, stacked_alpha(c, a, da), additive)
        }),
{
    lemma2_to64();
    let faint = single(0x3b44_9ba6);
    lemma_constant(0x3b44_9ba6, 0xc4_9ba6, 118);
    assert(pow2(32) as real == 0x1_0000_0000real);
    assert(amount(faint) * 0x1_0000_0000real == 0xc4_9ba6real);
    let m = f.multiplier(c, p.r, p.g, p.b);
    lemma_about_times(c, d.alpha, amount(d.alpha), 0real, 1real, m, amount(m), 0real, 1real, 3real / 0x40_0000real);
    let a = d.alpha.mul(c, m);
    lemma_compared(a, faint);
    a
}

/// A pixel is as light as its channels, weighed: green the most, blue the least.
pub proof fn law_channels_are_weighed<K: Fn(Op, Width, u64, u64) -> u64>(c: &Calc<K>, p: Rgba)
    requires
        rounds_doubles(c),
    ensures
        about_double(
            luma(c, p),
            2126real / 10000real * (p.r as real) + 7152real / 10000real * (p.g as real) + 722real / 10000real * (p.b as real),
            1real / 0x2000_0000real,
        ),
{
    let w = 1real / 0x100_0000_0000real;
    lemma2_to64();
    let (x, y, z) = (double(0x3fcb_367a_0f90_96bc), double(0x3fe6_e2eb_1c43_2ca5), double(0x3fb2_7bb2_fec5_6d5d));
    lemma_constant_double(0x3fcb_367a_0f90_96bc, 0x1b_367a_0f90_96bc, 1020);
    lemma_constant_double(0x3fe6_e2eb_1c43_2ca5, 0x16_e2eb_1c43_2ca5, 1022);
    lemma_constant_double(0x3fb2_7bb2_fec5_6d5d, 0x12_7bb2_fec5_6d5d, 1019);
    lemma_pow2_adds(32, 23);
    lemma_pow2_adds(32, 21);
    lemma_pow2_adds(32, 24);
    assert(pow2(55) as real == 0x80_0000_0000_0000real);
    assert(pow2(53) as real == 0x20_0000_0000_0000real);
    assert(pow2(56) as real == 0x100_0000_0000_0000real);
    assert(amount_of_double(x) * 0x80_0000_0000_0000real == 0x1b_367a_0f90_96bcreal);
    assert(amount_of_double(y) * 0x20_0000_0000_0000real == 0x16_e2eb_1c43_2ca5real);
    assert(amount_of_double(z) * 0x100_0000_0000_0000real == 0x12_7bb2_fec5_6d5dreal);
    assert(about_double(x, 2126real / 10000real, w));
    assert(about_double(y, 7152real / 10000real, w));
    assert(about_double(z, 722real / 10000real, w));
    lemma_counts(c, p.r as u64);
    lemma_counts(c, p.g as u64);
    lemma_counts(c, p.b as u64);
    let (r, g, b) = (F64::of_count(c, p.r as u64), F64::of_count(c, p.g as u64), F64::of_count(c, p.b as u64));
    lemma_about_times_double(c, x, 2126real / 10000real, w, 1real, r, p.r as real, 0real, 255real, 0x11freal * w);
    lemma_about_times_double(c, y, 7152real / 10000real, w, 1real, g, p.g as real, 0real, 255real, 0x11freal * w);
    lemma_about_times_double(c, z, 722real / 10000real, w, 1real, b, p.b as real, 0real, 255real, 0x11freal * w);
    let (i, j, k) = (2126real / 10000real * (p.r as real), 7152real / 10000real * (p.g as real), 722real / 10000real * (p.b as real));
    lemma_about_plus_double(c, x.mul(c, r), i, 0x11freal * w, y.mul(c, g), j, 0x11freal * w, 510real, 0x24freal * w);
    lemma_about_plus_double(c, x.mul(c, r).add(c, y.mul(c, g)), i + j, 0x24freal * w, z.mul(c, b), k, 0x11freal * w, 1000real, 0x3ffreal * w);
}

/// The test clip is darker towards the top: three fifths as bright in the first row, and evenly
/// brighter down to the last.
pub proof fn law_test_clips_fade_to_the_top<K: Fn(Op, Width, u64, u64) -> u64>(c: &Calc<K>, v: u8, y: u32, height: u32)
    requires
        rounds(c),
        drops_fractions(c),
        1 <= height <= 0x1_0000,
        y < height,
    ensures
        ({
            let want = (v as real) * (3real / 5real + 2real / 5real * ((y as real) / (height as real)));
            -1real / 0x100real <= want - (pattern_fade(c, v, y, height) as real) <= 1real + 1real / 0x100real
        }),
{
    let u = 1real / 0x40_0000real;
    lemma2_to64();
    let (base, more) = (single(0x3f19_999a), single(0x3ecc_cccd));
    lemma_constant(0x3f19_999a, 0x99_999a, 126);
    lemma_constant(0x3ecc_cccd, 0xcc_cccd, 125);
    assert(pow2(24) as real == 0x100_0000real);
    assert(pow2(25) as real == 0x200_0000real);
    assert(amount(base) * 0x100_0000real == 0x99_999areal);
    assert(amount(more) * 0x200_0000real == 0xcc_cccdreal);
    assert(about(base, 3real / 5real, u));
    assert(about(more, 2real / 5real, u));
    lemma_single_counts(c, v as u64);
    lemma_single_counts(c, y as u64);
    lemma_single_counts(c, height as u64);
    let (n, a, h) = (F32::of_count(c, v as u64), F32::of_count(c, y as u64), F32::of_count(c, height as u64));
    let hr = height as real;
    let w = (2real * 1real + 1real) / 0x40_0000real;
    assert(w * hr + 0real <= (4real * u) * hr) by (nonlinear_arith)
        requires
            w == 3real * u,
            hr > 0real,
            u > 0real,
    ;
    lemma_about_over(c, a, y as real, 0real, h, hr, 1real, 4real * u);
    let q = a.div(c, h);
    let qr = (y as real) / hr;
    lemma_quotient(y as real, hr);
    assert(0real <= qr) by (nonlinear_arith)
        requires
            qr * hr == y as real,
            y as real >= 0real,
            hr > 0real,
    ;
    assert((u) * (4real * u) <= u) by (nonlinear_arith)
        requires
            u == 1real / 0x40_0000real,
    ;
    lemma_about_times(c, more, 2real / 5real, u, 1real, q, qr, 4real * u, 1real, 9real * u);
    let pr = 2real / 5real * qr;
    lemma_about_plus(c, base, 3real / 5real, u, more.mul(c, q), pr, 9real * u, 1real, 13real * u);
    let sr = 3real / 5real + pr;
    lemma_about_times(c, n, v as real, 0real, 255real, base.add(c, more.mul(c, q)), sr, 13real * u, 1real, 1real / 0x100real);
    let vr = v as real;
    assert(0real <= vr * sr <= 255real) by (nonlinear_arith)
        requires
            0real <= vr <= 255real,
            0real <= sr <= 1real,
    ;
    lemma_byte(c, n.mul(c, base.add(c, more.mul(c, q))));
}

/// The test clip is brighter around its bar: full in its column, and evenly less up to the end
/// of its reach.
pub proof fn law_test_clips_glow_around_the_bar<K: Fn(Op, Width, u64, u64) -> u64>(c: &Calc<K>, v: u8, d: F32, reach: F32)
    requires
        rounds(c),
        drops_fractions(c),
        d.finite() && reach.finite(),
        0real <= amount(d) <= 0x1_0000real,
        1real / 16real <= amount(reach) <= 0x1_0000real,
    ensures
        amount(d) >= amount(reach) ==> pattern_boost(c, v, d, reach) == v,
        amount(d) < amount(reach) ==> ({
            let want = (v as real) + (255real - (v as real)) * (1real - amount(d) / amount(reach));
            -1real / 0x100real <= want - (pattern_boost(c, v, d, reach) as real) <= 1real + 1real / 0x100real
        }),
{
    let u = 1real / 0x40_0000real;
    lemma_constants();
    lemma2_to64();
    lemma_compared(d, reach);
    let (unity, full) = (single(0x3f80_0000), single(0x437f_0000));
    lemma_constant(0x437f_0000, 0xff_0000, 134);
    assert(pow2(16) as real == 0x1_0000real);
    assert(amount(full) * 0x1_0000real == 0xff_0000real);
    if amount(d) < amount(reach) {
        let (dr, rr, vr) = (amount(d), amount(reach), v as real);
        lemma_single_counts(c, v as u64);
        let n = F32::of_count(c, v as u64);
        let w = (2real * 1real + 1real) / 0x40_0000real;
        assert(w * rr + 0real <= (4real * u) * rr) by (nonlinear_arith)
            requires
                w == 3real * u,
                rr > 0real,
                u > 0real,
        ;
        lemma_about_over(c, d, dr, 0real, reach, rr, 1real, 4real * u);
        let q = d.div(c, reach);
        let qr = dr / rr;
        lemma_quotient(dr, rr);
        assert(0real <= qr) by (nonlinear_arith)
            requires
                qr * rr == dr,
                dr >= 0real,
                rr > 0real,
        ;
        lemma_about_less(c, unity, 1real, 0real, q, qr, 4real * u, 1real, 7real * u);
        lemma_about_less(c, full, 255real, 0real, n, vr, 0real, 255real, 257real * u);
        let er = 1real - qr;
        let fr = 255real - vr;
        assert((257real * u) * (7real * u) <= u) by (nonlinear_arith)
            requires
                u == 1real / 0x40_0000real,
        ;
        lemma_about_times(c, full.sub(c, n), fr, 257real * u, 255real, unity.sub(c, q), er, 7real * u, 1real, 2400real * u);
        let g = full.sub(c, n).mul(c, unity.sub(c, q));
        let gr = fr * er;
        assert(0real <= gr <= fr) by (nonlinear_arith)
            requires
                gr == fr * er,
                0real <= er <= 1real,
                0real <= fr,
        ;
        lemma_about_plus(c, n, vr, 0real, g, gr, 2400real * u, 255real, 1real / 0x100real);
        lemma_byte(c, n.add(c, g));
    }
}

/// An opacity as a byte, rounded down.
proof fn lemma_opacity_byte<K: Fn(Op, Width, u64, u64) -> u64>(c: &Calc<K>, o: F32)
    requires
        rounds(c),
        drops_fractions(c),
        o.finite() && 0real <= amount(o) <= 2real,
    ensures
        ({
            let want = kept_within(255real * amount(o), 0real, 255real);
            -1real / 0x400real <= want - (o.mul(c, single(0x437f_0000)).to_u8(c) as real) <= 1real + 1real / 0x400real
        }),
{
    lemma2_to64();
    let full = single(0x437f_0000);
    lemma_constant(0x437f_0000, 0xff_0000, 134);
    assert(pow2(16) as real == 0x1_0000real);
    assert(amount(full) * 0x1_0000real == 0xff_0000real);
    lemma_about_times(c, o, amount(o), 0real, 2real, full, 255real, 0real, 255real, 1real / 0x400real);
    lemma_byte(c, o.mul(c, full));
}

/// A pixel that a grain, a ghost or a smear was drawn on is as opaque as both are together.
pub proof fn law_pixels_are_as_opaque_as_both<K: Fn(Op, Width, u64, u64) -> u64>(c: &Calc<K>, r: u8, g: u8, b: u8, was: Rgba, a: F32, da: F32, out_a: F32, additive: F32)
    requires
        rounds(c),
        drops_fractions(c),
        out_a.finite() && 0real <= amount(out_a) <= 2real,
    ensures
        ({
            let want = kept_within(255real * amount(out_a), 0real, 255real);
            -1real / 0x400real <= want - (grain_over(c, r, g, b, was, a, da, out_a, additive).a as real) <= 1real + 1real / 0x400real
        }),
{
    lemma_opacity_byte(c, out_a);
}

/// The same of ghosts and smears that are not too faint.
pub proof fn law_ghosts_and_smears_are_as_opaque<K: Fn(Op, Width, u64, u64) -> u64>(c: &Calc<K>, d: Rgba, g: Rgba, x: F32, y: F32, z: F32, alpha: F32, ga: F32)
    requires
        rounds(c),
        drops_fractions(c),
        !faint_ghost(ga),
        under_alpha(c, crate::video::channel(c, d.a), ga).finite(),
        0real <= amount(under_alpha(c, crate::video::channel(c, d.a), ga)) <= 2real,
    ensures
        ({
            let want = kept_within(255real * amount(under_alpha(c, crate::video::channel(c, d.a), ga)), 0real, 255real);
            &&& -1real / 0x400real <= want - (ghosted_pixel(c, d, g, ga).a as real) <= 1real + 1real / 0x400real
            &&& -1real / 0x400real <= want - (smeared_pixel(c, d, x, y, z, alpha, ga).a as real) <= 1real + 1real / 0x400real
        }),
{
    lemma_opacity_byte(c, under_alpha(c, crate::video::channel(c, d.a), ga));
}

/// The colour of a smear is what was smeared of the channel for all that was smeared of the
/// opacity.
pub proof fn law_smears_keep_their_colour<K: Fn(Op, Width, u64, u64) -> u64>(c: &Calc<K>, v: F32, alpha: F32)
    requires
        rounds(c),
        v.finite() && 0real <= amount(v) <= amount(alpha) <= 256real,
        alpha.finite() && amount(alpha) >= 16real,
    ensures
        about(smear_colour(c, v, alpha), 255real * (amount(v) / amount(alpha)), 1real / 16real),
{
    let u = 1real / 0x40_0000real;
    lemma2_to64();
    let (full, few) = (single(0x437f_0000), single(0x3586_37bd));
    lemma_constant(0x437f_0000, 0xff_0000, 134);
    lemma_constant(0x3586_37bd, 0x86_37bd, 107);
    lemma_pow2_adds(32, 11);
    assert(pow2(16) as real == 0x1_0000real);
    assert(pow2(43) as real == 0x800_0000_0000real);
    assert(amount(full) * 0x1_0000real == 0xff_0000real);
    assert(amount(few) * 0x800_0000_0000real == 0x86_37bdreal);
    let (x, a) = (amount(v), amount(alpha));
    lemma_about_over(c, alpha, a, 0real, full, 255real, 2real, 5real * u);
    lemma_greater(alpha.div(c, full), few);
    let d = alpha.div(c, full).max(few);
    let (y, o) = (amount(d), a / 255real);
    assert(about(d, o, 5real * u));
    let w = (2real * 300real + 1real) / 0x40_0000real;
    assert(w * y + 0real <= (601real * u) * y) by (nonlinear_arith)
        requires
            w == 601real * u,
            y > 0real,
            u > 0real,
    ;
    lemma_about_over(c, v, x, 0real, d, y, 300real, 601real * u);
    lemma_quotient(x, y);
    lemma_quotient(x, a);
    let (p, q) = (x / y, 255real * (x / a));
    let r = x / a;
    assert(q * o == x && 0real <= q <= 255real) by (nonlinear_arith)
        requires
            r * a == x,
            q == 255real * r,
            o == a / 255real,
            0real <= x <= a,
            a >= 16real,
    ;
    assert((p - q) * y == q * (o - y)) by (nonlinear_arith)
        requires
            p * y == x,
            q * o == x,
    ;
    lemma_bounded(q, 255real, o - y, 5real * u);
    assert(-22000real * u <= p - q <= 22000real * u) by (nonlinear_arith)
        requires
            -1275real * u <= (p - q) * y <= 1275real * u,
            y >= 1real / 17real,
            u > 0real,
    ;
}

} // verus!
