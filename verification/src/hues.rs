//! What colours are made of, with arithmetic that rounds to nearest.
use crate::calc::{Calc, Op, Width};
use crate::echoes::rounds_singles_to_whole;
use crate::glows::lemma_whole_amount;
use crate::num::{single, F32};
use crate::reals::{
    about, amount, kept_within, lemma_about_less, lemma_about_over, lemma_about_plus, lemma_about_times, lemma_bounded, lemma_compared, lemma_constant, lemma_constants,
    lemma_exactly, lemma_greater, lemma_quotient, lemma_unsigned, lemma_wrapped_single, size, speck,
};
use crate::rounding::{one, rounds};
use crate::shades::{law_channels_are_parts, weight};
use crate::synth::{freq_to_hue, hue_to_freq};
use crate::video::{channel, channel_byte, ColorFilter, hsv_of, hue_sector, rgb_of, sextant, HueSector};
use vstd::arithmetic::power2::{lemma2_to64, lemma_pow2_adds, lemma_pow2_pos, pow2};
use vstd::prelude::*;

verus! {

/// The greatest of three bytes.
pub open spec fn greatest(r: u8, g: u8, b: u8) -> real {
    let m = if r < g {
        g
    } else {
        r
    };
    if m < b {
        b as real
    } else {
        m as real
    }
}

/// The least of three bytes.
pub open spec fn least(r: u8, g: u8, b: u8) -> real {
    let m = if g < r {
        g
    } else {
        r
    };
    if b < m {
        b as real
    } else {
        m as real
    }
}

/// The channels of a colour as numbers, with the greatest, the least and the spread.
proof fn lemma_channels<K: Fn(Op, Width, u64, u64) -> u64>(c: &Calc<K>, r: u8, g: u8, b: u8)
    requires
        rounds(c),
    ensures
        ({
            let u = 1real / 0x40_0000real;
            let (rf, gf, bf) = (channel(c, r), channel(c, g), channel(c, b));
            let max = rf.max(gf).max(bf);
            let min = rf.min(gf).min(bf);
            let (top, low) = (greatest(r, g, b), least(r, g, b));
            &&& about(rf, r as real / 255real, 3real * u)
            &&& about(gf, g as real / 255real, 3real * u)
            &&& about(bf, b as real / 255real, 3real * u)
            &&& about(max, top / 255real, 3real * u)
            &&& about(max.sub(c, min), (top - low) / 255real, 9real * u)
            &&& (r as real == top ==> amount(max) == amount(rf))
            &&& (g as real == top ==> amount(max) == amount(gf))
            &&& (b as real == top ==> amount(max) == amount(bf))
        }),
{
    let u = 1real / 0x40_0000real;
    law_channels_are_parts(c, r);
    law_channels_are_parts(c, g);
    law_channels_are_parts(c, b);
    let (rf, gf, bf) = (channel(c, r), channel(c, g), channel(c, b));
    lemma_greater(rf, gf);
    lemma_greater(rf.max(gf), bf);
    lemma_greater(rf.min(gf), bf);
    let max = rf.max(gf).max(bf);
    let min = rf.min(gf).min(bf);
    let (top, low) = (greatest(r, g, b), least(r, g, b));
    lemma_about_less(c, max, top / 255real, 3real * u, min, low / 255real, 3real * u, 1real, 9real * u);
    assert(top / 255real - low / 255real == (top - low) / 255real);
}

/// A part of a spread.
proof fn lemma_share<K: Fn(Op, Width, u64, u64) -> u64>(c: &Calc<K>, x: F32, xr: real, d: F32, dr: real)
    requires
        rounds(c),
        about(x, xr, 9real / 0x40_0000real),
        about(d, dr, 9real / 0x40_0000real),
        1real / 255real <= dr <= 1real,
        -dr <= xr <= dr,
    ensures
        about(x.div(c, d), xr / dr, 6000real / 0x40_0000real),
        -1real <= xr / dr <= 1real,
{
    let u = 1real / 0x40_0000real;
    let y = amount(d);
    lemma_about_over(c, x, xr, 9real * u, d, 1real / 256real, 256real, 3000real * u);
    lemma_quotient(xr, y);
    lemma_quotient(xr, dr);
    let (p, q) = (xr / y, xr / dr);
    assert(-1real <= q <= 1real) by (nonlinear_arith)
        requires
            q * dr == xr,
            -dr <= xr <= dr,
            dr > 0real,
    ;
    assert((p - q) * y == q * (dr - y)) by (nonlinear_arith)
        requires
            p * y == xr,
            q * dr == xr,
    ;
    lemma_bounded(q, 1real, dr - y, 9real * u);
    assert(-2304real * u <= p - q <= 2304real * u) by (nonlinear_arith)
        requires
            -9real * u <= (p - q) * y <= 9real * u,
            y >= 1real / 256real,
            u > 0real,
    ;
}

/// The value of a colour is its brightest channel, and its saturation the part of it that the
/// darkest one lacks.
pub proof fn law_values_and_saturations<K: Fn(Op, Width, u64, u64) -> u64>(c: &Calc<K>, r: u8, g: u8, b: u8)
    requires
        rounds(c),
    ensures
        ({
            let (h, s, v) = hsv_of(c, r, g, b);
            let (top, low) = (greatest(r, g, b), least(r, g, b));
            &&& about(v, top / 255real, 1real / 0x10_0000real)
            &&& top >= 1real ==> about(s, (top - low) / top, 1real / 0x100real)
            &&& top == 0real ==> s == single(0)
        }),
{
    lemma_constants();
    lemma_channels(c, r, g, b);
    let (rf, gf, bf) = (channel(c, r), channel(c, g), channel(c, b));
    let max = rf.max(gf).max(bf);
    let min = rf.min(gf).min(bf);
    let (top, low) = (greatest(r, g, b), least(r, g, b));
    lemma_compared(max, single(0));
    if top >= 1real {
        lemma_share(c, max.sub(c, min), (top - low) / 255real, max, top / 255real);
        let (p, q) = ((top - low) / 255real / (top / 255real), (top - low) / top);
        lemma_quotient((top - low) / 255real, top / 255real);
        lemma_quotient(top - low, top);
        assert(p == q) by (nonlinear_arith)
            requires
                p * (top / 255real) == (top - low) / 255real,
                q * top == top - low,
                top >= 1real,
        ;
    } else {
        lemma2_to64();
        let full = single(0x437f_0000);
        lemma_constant(0x437f_0000, 0xff_0000, 134);
        assert(pow2(16) as real == 0x1_0000real);
        assert(amount(full) * 0x1_0000real == 0xff_0000real);
        crate::spread::lemma_single_counts(c, 0);
        lemma_exactly(c, F32::of_count(c, 0), full, single(0));
        assert(r == 0 && g == 0 && b == 0);
        lemma_greater(rf, gf);
        lemma_greater(rf.max(gf), bf);
    }
}

/// What decides the sector of a hue.
proof fn lemma_sector<K: Fn(Op, Width, u64, u64) -> u64>(c: &Calc<K>, r: u8, g: u8, b: u8)
    requires
        rounds(c),
        greatest(r, g, b) > least(r, g, b),
    ensures
        ({
            let (rf, gf, bf) = (channel(c, r), channel(c, g), channel(c, b));
            let max = rf.max(gf).max(bf);
            let min = rf.min(gf).min(bf);
            hue_sector(max.sub(c, rf), max.sub(c, gf), max.sub(c, min)) == if r as real == greatest(r, g, b) {
                HueSector::Red
            } else if g as real == greatest(r, g, b) {
                HueSector::Green
            } else {
                HueSector::Blue
            }
        }),
{
    let u = 1real / 0x40_0000real;
    lemma_constants();
    lemma2_to64();
    lemma_channels(c, r, g, b);
    let (rf, gf, bf) = (channel(c, r), channel(c, g), channel(c, b));
    let max = rf.max(gf).max(bf);
    let min = rf.min(gf).min(bf);
    let (top, low) = (greatest(r, g, b), least(r, g, b));
    let tiny = single(0x3586_37bd);
    lemma_constant(0x3586_37bd, 0x86_37bd, 107);
    lemma_pow2_adds(32, 11);
    assert(pow2(43) as real == 0x800_0000_0000real);
    assert(amount(tiny) * 0x800_0000_0000real == 0x86_37bdreal);
    let zero = single(0);
    assert(top - low >= 1real);
    lemma_compared(max.sub(c, min), tiny);
    lemma_about_less(c, max, top / 255real, 3real * u, rf, r as real / 255real, 3real * u, 1real, 9real * u);
    lemma_about_less(c, max, top / 255real, 3real * u, gf, g as real / 255real, 3real * u, 1real, 9real * u);
    lemma_exactly(c, max, rf, zero);
    lemma_exactly(c, max, gf, zero);
    lemma_unsigned(max.sub(c, rf));
    lemma_unsigned(max.sub(c, gf));
    lemma_compared(max.sub(c, rf).abs(), tiny);
    lemma_compared(max.sub(c, gf).abs(), tiny);
}

/// Sixty degrees, a full turn of them, and the sectors.
proof fn lemma_degrees()
    ensures
        single(0x4270_0000).finite() && amount(single(0x4270_0000)) == 60real,
        single(0x43b4_0000).finite() && amount(single(0x43b4_0000)) == 360real,
        single(0x40c0_0000).finite() && amount(single(0x40c0_0000)) == 6real,
        single(0x4080_0000).finite() && amount(single(0x4080_0000)) == 4real,
{
    lemma2_to64();
    lemma_constant(0x4270_0000, 0xf0_0000, 132);
    lemma_constant(0x43b4_0000, 0xb4_0000, 135);
    lemma_constant(0x40c0_0000, 0xc0_0000, 129);
    lemma_constant(0x4080_0000, 0x80_0000, 129);
    assert(pow2(18) as real == 0x4_0000real);
    assert(pow2(15) as real == 0x8000real);
    assert(pow2(21) as real == 0x20_0000real);
    assert(amount(single(0x4270_0000)) * 0x4_0000real == 0xf0_0000real);
    assert(amount(single(0x43b4_0000)) * 0x8000real == 0xb4_0000real);
    assert(amount(single(0x40c0_0000)) * 0x20_0000real == 0xc0_0000real);
    assert(amount(single(0x4080_0000)) * 0x20_0000real == 0x80_0000real);
}

/// A hue is the same after a turn.
proof fn lemma_turned<K: Fn(Op, Width, u64, u64) -> u64>(c: &Calc<K>, x: F32, want: real, e: real) -> (k: int)
    requires
        rounds(c),
        about(x, want, e),
    ensures
        about(x.rem_euclid(c, single(0x43b4_0000)), want - 360real * (k as real), e + 1real / 0x1000real),
{
    lemma_degrees();
    let k = lemma_wrapped_single(c, x, single(0x43b4_0000));
    assert(speck() <= 1real);
    k
}

/// The hue of a colour whose red is the brightest: from a sixth of a turn before red to one
/// after it, as far as green is ahead of blue. Whole turns, `k` of them, do not count.
pub proof fn law_hues_around_red<K: Fn(Op, Width, u64, u64) -> u64>(c: &Calc<K>, r: u8, g: u8, b: u8) -> (k: int)
    requires
        rounds(c),
        r >= g,
        r >= b,
        r > g || r > b,
    ensures
        about(
            hsv_of(c, r, g, b).0,
            60real * ((g as real - b as real) / (r as real - least(r, g, b))) - 360real * (k as real),
            1real / 8real,
        ),
{
    let u = 1real / 0x40_0000real;
    lemma_degrees();
    lemma_channels(c, r, g, b);
    lemma_sector(c, r, g, b);
    let (rf, gf, bf) = (channel(c, r), channel(c, g), channel(c, b));
    let delta = rf.max(gf).max(bf).sub(c, rf.min(gf).min(bf));
    let (n, d) = (g as real - b as real, r as real - least(r, g, b));
    lemma_about_less(c, gf, g as real / 255real, 3real * u, bf, b as real / 255real, 3real * u, 1real, 9real * u);
    lemma_share(c, gf.sub(c, bf), n / 255real, delta, d / 255real);
    lemma_scaled_quotient(n, d);
    let q = gf.sub(c, bf).div(c, delta);
    let six = single(0x40c0_0000);
    let j = lemma_wrapped_single(c, q, six);
    assert(speck() <= 1real);
    let w = q.rem_euclid(c, six);
    let jr = j as real;
    let wr = n / d - 6real * jr;
    assert(about(w, wr, 6010real * u));
    lemma_about_times(c, single(0x4270_0000), 60real, 0real, 60real, w, wr, 6010real * u, 7real, 1real / 10real);
    let k = lemma_turned(c, single(0x4270_0000).mul(c, w), 60real * wr, 1real / 10real);
    let kr = (j + k) as real;
    assert(60real * wr - 360real * (k as real) == 60real * (n / d) - 360real * kr);
    j + k
}

/// Quotients do not change when both parts are scaled.
proof fn lemma_scaled_quotient(n: real, d: real)
    requires
        d >= 1real,
    ensures
        (n / 255real) / (d / 255real) == n / d,
{
    lemma_quotient(n / 255real, d / 255real);
    lemma_quotient(n, d);
    let (p, q) = ((n / 255real) / (d / 255real), n / d);
    assert(p == q) by (nonlinear_arith)
        requires
            p * (d / 255real) == n / 255real,
            q * d == n,
            d >= 1real,
    ;
}

/// The hue of a colour whose green is the brightest: two sixths of a turn, and as far on as
/// blue is ahead of red.
pub proof fn law_hues_around_green<K: Fn(Op, Width, u64, u64) -> u64>(c: &Calc<K>, r: u8, g: u8, b: u8) -> (k: int)
    requires
        rounds(c),
        g > r,
        g >= b,
    ensures
        about(
            hsv_of(c, r, g, b).0,
            120real + 60real * ((b as real - r as real) / (g as real - least(r, g, b))) - 360real * (k as real),
            1real / 8real,
        ),
{
    let u = 1real / 0x40_0000real;
    lemma_constants();
    lemma_degrees();
    lemma_channels(c, r, g, b);
    lemma_sector(c, r, g, b);
    let (rf, gf, bf) = (channel(c, r), channel(c, g), channel(c, b));
    let delta = rf.max(gf).max(bf).sub(c, rf.min(gf).min(bf));
    let (n, d) = (b as real - r as real, g as real - least(r, g, b));
    lemma_about_less(c, bf, b as real / 255real, 3real * u, rf, r as real / 255real, 3real * u, 1real, 9real * u);
    lemma_share(c, bf.sub(c, rf), n / 255real, delta, d / 255real);
    lemma_scaled_quotient(n, d);
    let q = bf.sub(c, rf).div(c, delta);
    lemma_about_plus(c, q, n / d, 6000real * u, single(0x4000_0000), 2real, 0real, 3real, 6010real * u);
    let wr = n / d + 2real;
    let w = q.add(c, single(0x4000_0000));
    lemma_about_times(c, single(0x4270_0000), 60real, 0real, 60real, w, wr, 6010real * u, 7real, 1real / 10real);
    lemma_turned(c, single(0x4270_0000).mul(c, w), 60real * wr, 1real / 10real)
}

/// The hue of a colour whose blue is the brightest: four sixths of a turn, and as far on as
/// red is ahead of green.
pub proof fn law_hues_around_blue<K: Fn(Op, Width, u64, u64) -> u64>(c: &Calc<K>, r: u8, g: u8, b: u8) -> (k: int)
    requires
        rounds(c),
        b > r,
        b > g,
    ensures
        about(
            hsv_of(c, r, g, b).0,
            240real + 60real * ((r as real - g as real) / (b as real - least(r, g, b))) - 360real * (k as real),
            1real / 8real,
        ),
{
    let u = 1real / 0x40_0000real;
    lemma_degrees();
    lemma_channels(c, r, g, b);
    lemma_sector(c, r, g, b);
    let (rf, gf, bf) = (channel(c, r), channel(c, g), channel(c, b));
    let delta = rf.max(gf).max(bf).sub(c, rf.min(gf).min(bf));
    let (n, d) = (r as real - g as real, b as real - least(r, g, b));
    lemma_about_less(c, rf, r as real / 255real, 3real * u, gf, g as real / 255real, 3real * u, 1real, 9real * u);
    lemma_share(c, rf.sub(c, gf), n / 255real, delta, d / 255real);
    lemma_scaled_quotient(n, d);
    let q = rf.sub(c, gf).div(c, delta);
    lemma_about_plus(c, q, n / d, 6000real * u, single(0x4080_0000), 4real, 0real, 5real, 6010real * u);
    let wr = n / d + 4real;
    let w = q.add(c, single(0x4080_0000));
    lemma_about_times(c, single(0x4270_0000), 60real, 0real, 60real, w, wr, 6010real * u, 7real, 1real / 10real);
    lemma_turned(c, single(0x4270_0000).mul(c, w), 60real * wr, 1real / 10real)
}

// ------------------------------------------------------------ back to channels

/// Whether the remainder of numbers that are not negative is exact.
#[verifier::opaque]
pub open spec fn takes_remainders<K: Fn(Op, Width, u64, u64) -> u64>(c: &Calc<K>) -> bool {
    forall|a: F32, b: F32|
        a.finite() && b.finite() && a.value() >= 0 && b.value() > 0 ==> (#[trigger] a.rem(c, b)).finite() && a.rem(c, b).value()
            == a.value() % b.value()
}

/// A remainder is whole divisors away from the number, and smaller than the divisor.
proof fn lemma_remaindered<K: Fn(Op, Width, u64, u64) -> u64>(c: &Calc<K>, a: F32, b: F32) -> (k: int)
    requires
        takes_remainders(c),
        a.finite(),
        b.finite(),
        amount(a) >= 0real,
        amount(b) > 0real,
    ensures
        a.rem(c, b).finite(),
        0real <= amount(a.rem(c, b)) < amount(b),
        amount(a) == (k as real) * amount(b) + amount(a.rem(c, b)),
        k >= 0,
{
    reveal(takes_remainders);
    lemma_pow2_pos(149);
    crate::reals::lemma_order(F32 { bits: 0 }, a);
    crate::reals::lemma_order(F32 { bits: 0 }, b);
    assert(crate::num::single_value(0) == 0);
    let (n, d, u) = (a.value(), b.value(), one() as real);
    let (k, m) = (n / d, n % d);
    assert(n == k * d + m && 0 <= m < d && k >= 0) by (nonlinear_arith)
        requires
            k == n / d,
            m == n % d,
            n >= 0,
            d > 0,
    ;
    let r = a.rem(c, b);
    crate::reals::lemma_counted(k, d);
    lemma_quotient(n as real, u);
    lemma_quotient(d as real, u);
    lemma_quotient(m as real, u);
    let (x, y, z, kk) = (amount(a), amount(b), amount(r), k as real);
    assert(x == kk * y + z && 0real <= z < y) by (nonlinear_arith)
        requires
            x * u == kk * (y * u) + z * u,
            0real <= z * u < y * u,
            u > 0real,
    ;
    k
}

/// A number rounded to a byte.
proof fn lemma_round_byte<K: Fn(Op, Width, u64, u64) -> u64>(c: &Calc<K>, x: F32)
    requires
        rounds(c),
        rounds_singles_to_whole(c),
        x.finite(),
        -1real / 4real <= amount(x) <= 255real + 1real / 4real,
    ensures
        -1real / 2real <= (x.round(c).to_u8(c) as real) - amount(x) <= 1real / 2real,
{
    let r = x.round(c);
    assert(r.finite() && size(amount(r) - amount(x)) <= 1real / 2real && r.value() % one() == 0);
    lemma_whole_amount(r);
    let k = r.value() / one();
    if k < 0 {
        assert(k as real <= -1real);
    }
    if k > 255 {
        assert(k as real >= 256real);
    }
    reveal(rounds);
    assert(r.to_int(c) == k);
}

/// How much of a channel a hue holds: red is full from a sixth of a turn before the start to a
/// sixth after it, green and blue the same around two and four sixths, and each fades within the
/// sixth beside. Hues are given in sixths.
pub open spec fn red_in(t: real) -> real {
    kept_within(size(t - 3real) - 1real, 0real, 1real)
}

pub open spec fn green_in(t: real) -> real {
    kept_within(2real - size(t - 2real), 0real, 1real)
}

pub open spec fn blue_in(t: real) -> real {
    kept_within(2real - size(t - 4real), 0real, 1real)
}

/// The channels of a hue in sixths.
proof fn lemma_sextants<K: Fn(Op, Width, u64, u64) -> u64>(c: &Calc<K>, t: F32, ch: F32, cr: real, e: real)
    requires
        rounds(c),
        takes_remainders(c),
        t.finite(),
        0real <= amount(t) < 6real,
        about(ch, cr, e),
        0real <= cr <= 1real,
        0real <= e <= 1real / 0x1000real,
    ensures
        ({
            let u = 1real / 0x40_0000real;
            let x = ch.mul(c, single(0x3f80_0000).sub(c, t.rem(c, single(0x4000_0000)).sub(c, single(0x3f80_0000)).abs()));
            let (r, g, b) = sextant(t.to_u32(c), ch, x);
            &&& about(r, cr * red_in(amount(t)), 2real * e + 12real * u)
            &&& about(g, cr * green_in(amount(t)), 2real * e + 12real * u)
            &&& about(b, cr * blue_in(amount(t)), 2real * e + 12real * u)
        }),
{
    let u = 1real / 0x40_0000real;
    lemma_constants();
    let (unity, two) = (single(0x3f80_0000), single(0x4000_0000));
    let a = amount(t);
    let q = lemma_remaindered(c, t, two);
    let m = t.rem(c, two);
    let w = a - 2real * (q as real);
    assert(amount(m) == w);
    lemma_about_less(c, m, w, 0real, unity, 1real, 0real, 1real, 2real * u);
    let n = m.sub(c, unity);
    lemma_unsigned(n);
    let nr = size(w - 1real);
    assert(about(n.abs(), nr, 2real * u));
    lemma_about_less(c, unity, 1real, 0real, n.abs(), nr, 2real * u, 1real, 5real * u);
    let f = unity.sub(c, n.abs());
    let fr = 1real - nr;
    assert(e * 1real + 1real * (5real * u) + e * (5real * u) <= e + 6real * u) by (nonlinear_arith)
        requires
            0real <= e <= 1real / 0x1000real,
            u == 1real / 0x40_0000real,
    ;
    lemma_about_times(c, ch, cr, e, 1real, f, fr, 5real * u, 1real, 2real * e + 12real * u);
    lemma_floor_of(c, t);
    let k = t.to_u32(c);
    assert(q as real * 2real <= a < q as real * 2real + 2real);
    assert(0 <= q <= 2) by {
        if q >= 3 {
            assert(q as real >= 3real);
        }
    }
    assert(k as int <= 5) by {
        if k >= 6 {
            assert(k as real >= 6real);
        }
    }
    let tri = fr;
    if q == 0 {
        assert(k < 2) by {
            if k >= 2 {
                assert(k as real >= 2real);
            }
        }
    } else if q == 1 {
        assert(2 <= k < 4) by {
            if k >= 4 {
                assert(k as real >= 4real);
            }
            if k <= 1 {
                assert(k as real <= 1real);
            }
        }
    } else {
        assert(4 <= k < 6) by {
            if k <= 3 {
                assert(k as real <= 3real);
            }
        }
    }
    lemma_weights(a, k as int, w, fr);
}

proof fn lemma_floor_of<K: Fn(Op, Width, u64, u64) -> u64>(c: &Calc<K>, t: F32)
    requires
        rounds(c),
        t.finite(),
        0real <= amount(t) < 6real,
    ensures
        t.to_u32(c) as real <= amount(t) < t.to_u32(c) as real + 1real,
{
    crate::echoes::lemma_floor_size(c, t);
}

/// The channels in each sixth.
proof fn lemma_weights(a: real, k: int, w: real, tri: real)
    requires
        0 <= k <= 5,
        k as real <= a < k as real + 1real,
        w == a - 2real * ((k / 2) as real),
        tri == 1real - size(w - 1real),
    ensures
        red_in(a) == (if k == 0 || k == 5 {
            1real
        } else if k == 1 || k == 4 {
            tri
        } else {
            0real
        }),
        green_in(a) == (if k == 1 || k == 2 {
            1real
        } else if k == 0 || k == 3 {
            tri
        } else {
            0real
        }),
        blue_in(a) == (if k == 3 || k == 4 {
            1real
        } else if k == 2 || k == 5 {
            tri
        } else {
            0real
        }),
{
}

/// A colour has as much of each channel as its hue holds, spread between its value and what its
/// saturation leaves of it.
pub proof fn law_colours_hold_their_hue<K: Fn(Op, Width, u64, u64) -> u64>(c: &Calc<K>, h: F32, s: F32, v: F32)
    requires
        rounds(c),
        rounds_singles_to_whole(c),
        takes_remainders(c),
        h.finite() && 1real / 16real <= amount(h) <= 360real - 1real / 16real,
        weight(s),
        weight(v),
    ensures
        ({
            let (r, g, b) = rgb_of(c, h, s, v);
            let t = amount(h) / 60real;
            let (chroma, rest) = (amount(v) * amount(s), amount(v) * (1real - amount(s)));
            &&& -1real <= (r as real) - 255real * (chroma * red_in(t) + rest) <= 1real
            &&& -1real <= (g as real) - 255real * (chroma * green_in(t) + rest) <= 1real
            &&& -1real <= (b as real) - 255real * (chroma * blue_in(t) + rest) <= 1real
        }),
{
    let u = 1real / 0x40_0000real;
    lemma_constants();
    lemma_degrees();
    let (turn, sixty) = (single(0x43b4_0000), single(0x4270_0000));
    let k = lemma_wrapped_single(c, h, turn);
    assert(speck() <= 1real);
    assert(k == 0) by {
        if k >= 1 {
            assert(k as real >= 1real);
        }
        if k <= -1 {
            assert(k as real <= -1real);
        }
    }
    let hw = h.rem_euclid(c, turn);
    let hr = amount(h);
    lemma_about_over(c, hw, hr, 361real * u, sixty, 60real, 6real, 30real * u);
    let t = hw.div(c, sixty);
    let tr = hr / 60real;
    crate::reals::lemma_order(F32 { bits: 0 }, hw);
    lemma_turn_sign(c, hw, sixty);
    let (vr, sr) = (amount(v), amount(s));
    lemma_about_times(c, v, vr, 0real, 1real, s, sr, 0real, 1real, 3real * u);
    let ch = v.mul(c, s);
    let cr = vr * sr;
    assert(0real <= cr <= vr) by (nonlinear_arith)
        requires
            cr == vr * sr,
            0real <= vr <= 1real,
            0real <= sr <= 1real,
    ;
    lemma_about_less(c, v, vr, 0real, ch, cr, 3real * u, 1real, 6real * u);
    let m = v.sub(c, ch);
    let mr = vr - cr;
    assert(mr == vr * (1real - sr)) by (nonlinear_arith)
        requires
            cr == vr * sr,
            mr == vr - cr,
    ;
    lemma_sextants(c, t, ch, cr, 3real * u);
    let x = ch.mul(c, single(0x3f80_0000).sub(c, t.rem(c, single(0x4000_0000)).sub(c, single(0x3f80_0000)).abs()));
    let (r, g, b) = sextant(t.to_u32(c), ch, x);
    let a = amount(t);
    lemma_byte_of(c, r, m, cr, mr, red_in(a), red_in(tr));
    lemma_byte_of(c, g, m, cr, mr, green_in(a), green_in(tr));
    lemma_byte_of(c, b, m, cr, mr, blue_in(a), blue_in(tr));
}

proof fn lemma_turn_sign<K: Fn(Op, Width, u64, u64) -> u64>(c: &Calc<K>, hw: F32, sixty: F32)
    requires
        rounds(c),
        hw.finite(),
        sixty.finite(),
        amount(sixty) == 60real,
        0real <= amount(hw) <= 360real,
    ensures
        amount(hw.div(c, sixty)) >= 0real,
{
    let u = 1real / 0x40_0000real;
    crate::reals::lemma_order(F32 { bits: 0 }, hw);
    crate::reals::lemma_order(F32 { bits: 0 }, sixty);
    assert(crate::num::single_value(0) == 0);
    lemma_about_over(c, hw, amount(hw), 0real, sixty, 60real, 6real, 30real * u);
    crate::reals::lemma_over_sign(c, hw, sixty);
    crate::reals::lemma_order(F32 { bits: 0 }, hw.div(c, sixty));
}

/// A channel of a colour as a byte.
proof fn lemma_byte_of<K: Fn(Op, Width, u64, u64) -> u64>(c: &Calc<K>, x: F32, m: F32, cr: real, mr: real, held: real, want: real)
    requires
        rounds(c),
        rounds_singles_to_whole(c),
        about(x, cr * held, 20real / 0x40_0000real),
        about(m, mr, 6real / 0x40_0000real),
        0real <= cr,
        0real <= mr,
        cr + mr <= 1real,
        0real <= held <= 1real,
        -40real / 0x40_0000real <= held - want <= 40real / 0x40_0000real,
    ensures
        -1real <= (channel_byte(c, x, m) as real) - 255real * (cr * want + mr) <= 1real,
{
    let u = 1real / 0x40_0000real;
    lemma2_to64();
    let full = single(0x437f_0000);
    lemma_constant(0x437f_0000, 0xff_0000, 134);
    assert(pow2(16) as real == 0x1_0000real);
    assert(amount(full) * 0x1_0000real == 0xff_0000real);
    let p = cr * held;
    assert(0real <= p <= cr) by (nonlinear_arith)
        requires
            p == cr * held,
            0real <= cr,
            0real <= held <= 1real,
    ;
    lemma_about_plus(c, x, p, 20real * u, m, mr, 6real * u, 1real, 30real * u);
    let s = p + mr;
    lemma_about_times(c, x.add(c, m), s, 30real * u, 1real, full, 255real, 0real, 255real, 8000real * u);
    let y = x.add(c, m).mul(c, full);
    lemma_round_byte(c, y);
    let d = cr * want - p;
    assert(-40real * u <= d <= 40real * u) by (nonlinear_arith)
        requires
            d == cr * want - cr * held,
            -40real * u <= held - want <= 40real * u,
            0real <= cr <= 1real,
            u > 0real,
    ;
}

// -------------------------------------------------------------------- bands

/// How far a hue is from a band's center, the shorter way round: never more than half a turn,
/// and the difference between the two but for whole turns, `k` of them. A hue on the far side
/// is measured backwards.
pub proof fn law_hues_are_apart_the_shorter_way<K: Fn(Op, Width, u64, u64) -> u64>(c: &Calc<K>, f: ColorFilter, h: F32) -> (k: int)
    requires
        rounds(c),
        h.finite() && 0real <= amount(h) <= 360real,
        f.hue_center.finite() && -720real <= amount(f.hue_center) <= 720real,
    ensures
        ({
            let (gap, away) = (f.hue_gap(c, h), amount(h) - amount(f.hue_center) - 360real * (k as real));
            &&& gap.finite() && -1real / 0x400real <= amount(gap) <= 180real + 1real / 0x400real
            &&& about(gap, away, 1real / 0x400real) || about(gap, -away, 1real / 0x400real)
        }),
{
    let u = 1real / 0x40_0000real;
    lemma_degrees();
    lemma2_to64();
    let half = single(0x4334_0000);
    lemma_constant(0x4334_0000, 0xb4_0000, 134);
    assert(pow2(16) as real == 0x1_0000real);
    assert(amount(half) * 0x1_0000real == 0xb4_0000real);
    let turn = single(0x43b4_0000);
    let center = f.hue_center;
    let away = amount(h) - amount(center);
    lemma_about_less(c, h, amount(h), 0real, center, amount(center), 0real, 1080real, 1100real * u);
    let j = lemma_turned(c, h.sub(c, center), away, 1100real * u);
    let d = h.sub(c, center).rem_euclid(c, turn);
    let i = lemma_wrapped_single(c, h.sub(c, center), turn);
    lemma_compared(half, d);
    if amount(half) < amount(d) {
        lemma_about_less(c, turn, 360real, 0real, d, amount(d), 0real, 360real, 370real * u);
        let jr = (j + 1) as real;
        assert(360real * jr == 360real * (j as real) + 360real);
        j + 1
    } else {
        j
    }
}

/// A band keeps a coloured pixel whole where its hue is well inside, not at all where it is well
/// outside, and over the soft edge as far as it is from the end of it.
#[verifier::rlimit(30)]
pub proof fn law_bands_have_soft_edges<K: Fn(Op, Width, u64, u64) -> u64>(c: &Calc<K>, f: ColorFilter, r: u8, g: u8, b: u8)
    requires
        rounds(c),
        f.hue_width.finite() && 10real <= amount(f.hue_width) <= 360real,
        f.softness.finite() && 1real / 100real <= amount(f.softness) <= 1real,
        f.hue_gap(c, hsv_of(c, r, g, b).0).finite() && -1real <= amount(f.hue_gap(c, hsv_of(c, r, g, b).0)) <= 181real,
        hsv_of(c, r, g, b).1.finite() && hsv_of(c, r, g, b).2.finite(),
        f.sat_min.finite() && amount(f.sat_min) <= amount(hsv_of(c, r, g, b).1),
        f.val_min.finite() && amount(f.val_min) <= amount(hsv_of(c, r, g, b).2),
    ensures
        ({
            let gap = amount(f.hue_gap(c, hsv_of(c, r, g, b).0));
            let half = amount(f.hue_width) / 2real;
            let soft = half * amount(f.softness);
            about(f.membership(c, r, g, b), kept_within((half + soft - gap) / (2real * soft), 0real, 1real), 1real / 32real)
        }),
{
    let u = 1real / 0x40_0000real;
    lemma_constants();
    lemma2_to64();
    let (zero, unity, two, least) = (single(0), single(0x3f80_0000), single(0x4000_0000), single(0x3a83_126f));
    lemma_constant(0x3a83_126f, 0x83_126f, 117);
    lemma_pow2_adds(32, 1);
    assert(pow2(33) as real == 0x2_0000_0000real);
    assert(amount(least) * 0x2_0000_0000real == 0x83_126freal);
    let (hh, ss, vv) = hsv_of(c, r, g, b);
    let d = f.hue_gap(c, hh);
    let dr = amount(d);
    let hr = amount(f.hue_width) / 2real;
    lemma_about_over(c, f.hue_width, amount(f.hue_width), 0real, two, 2real, 180real, 370real * u);
    let h0 = f.hue_width.div(c, two);
    lemma_greater(h0, least);
    let half = h0.max(least);
    assert(about(half, hr, 370real * u));
    let p = amount(f.softness);
    lemma_compared(f.softness, zero);
    lemma_compared(unity, f.softness);
    assert(f.softness.clamp(zero, unity) == f.softness);
    lemma_about_times(c, half, hr, 370real * u, 180real, f.softness, p, 0real, 1real, 560real * u);
    let sr = hr * p;
    assert(sr >= 1real / 20real) by (nonlinear_arith)
        requires
            sr == hr * p,
            hr >= 5real,
            p >= 1real / 100real,
    ;
    let s0 = half.mul(c, f.softness);
    lemma_greater(s0, least);
    let soft = s0.max(least);
    assert(about(soft, sr, 560real * u));
    lemma_about_less(c, half, hr, 370real * u, soft, sr, 560real * u, 180real, 1120real * u);
    lemma_about_plus(c, half, hr, 370real * u, soft, sr, 560real * u, 360real, 1300real * u);
    let (from, to) = (half.sub(c, soft), half.add(c, soft));
    lemma_compared(d, from);
    lemma_compared(to, d);
    lemma_compared(f.sat_min, ss);
    lemma_compared(f.val_min, vv);
    let w = (hr + sr - dr) / (2real * sr);
    lemma_quotient(hr + sr - dr, 2real * sr);
    let band = if d.le(from) {
        unity
    } else if to.le(d) {
        zero
    } else {
        unity.sub(c, d.sub(c, from).div(c, two.mul(c, soft)))
    };
    if amount(d) <= amount(from) {
        assert(w >= 1real - 1real / 64real) by (nonlinear_arith)
            requires
                w * (2real * sr) == hr + sr - dr,
                dr <= hr - sr + 1120real * u,
                sr >= 1real / 20real,
                u == 1real / 0x40_0000real,
        ;
    } else if amount(to) <= amount(d) {
        assert(w <= 1real / 64real) by (nonlinear_arith)
            requires
                w * (2real * sr) == hr + sr - dr,
                dr >= hr + sr - 1300real * u,
                sr >= 1real / 20real,
                u == 1real / 0x40_0000real,
        ;
    } else {
        lemma_about_less(c, d, dr, 0real, from, hr - sr, 1120real * u, 362real, 1500real * u);
        lemma_about_times(c, two, 2real, 0real, 2real, soft, sr, 560real * u, 180real, 1500real * u);
        lemma_ramp(c, d.sub(c, from), dr - (hr - sr), two.mul(c, soft), 2real * sr);
        let q = d.sub(c, from).div(c, two.mul(c, soft));
        let qr = (dr - (hr - sr)) / (2real * sr);
        lemma_quotient(dr - (hr - sr), 2real * sr);
        assert(1real - qr == w) by (nonlinear_arith)
            requires
                w * (2real * sr) == hr + sr - dr,
                qr * (2real * sr) == dr - (hr - sr),
                sr >= 1real / 20real,
        ;
        assert(-1real / 8real <= qr <= 9real / 8real) by (nonlinear_arith)
            requires
                qr * (2real * sr) == dr - (hr - sr),
                dr >= hr - sr - 1120real * u,
                dr <= hr + sr + 1300real * u,
                sr >= 1real / 20real,
                u == 1real / 0x40_0000real,
        ;
        lemma_about_less(c, unity, 1real, 0real, q, qr, 1real / 80real, 2real, 1real / 64real);
        assert(about(band, w, 1real / 64real));
        assert(-1real / 64real <= w <= 1real + 1real / 64real) by (nonlinear_arith)
            requires
                w * (2real * sr) == hr + sr - dr,
                dr >= hr - sr - 1120real * u,
                dr <= hr + sr + 1300real * u,
                sr >= 1real / 20real,
                u == 1real / 0x40_0000real,
        ;
    }
    lemma_exactly(c, band, unity, band);
    assert(f.membership(c, r, g, b) == band.mul(c, unity));
}

/// How far along a soft edge a hue is.
proof fn lemma_ramp<K: Fn(Op, Width, u64, u64) -> u64>(c: &Calc<K>, x: F32, xr: real, d: F32, dr: real)
    requires
        rounds(c),
        about(x, xr, 1500real / 0x40_0000real),
        about(d, dr, 1500real / 0x40_0000real),
        1real / 10real <= dr <= 360real,
        -1500real / 0x40_0000real <= xr <= dr + 1500real / 0x40_0000real,
    ensures
        about(x.div(c, d), xr / dr, 1real / 80real),
{
    let u = 1real / 0x40_0000real;
    let y = amount(d);
    let lo = dr - 1500real * u;
    let w = (2real * 2real + 1real) / 0x40_0000real;
    assert(w * lo + 1500real * u <= (1real / 200real) * lo) by (nonlinear_arith)
        requires
            lo >= 9real / 100real,
            w == 5real / 0x40_0000real,
            u == 1real / 0x40_0000real,
    ;
    lemma_about_over(c, x, xr, 1500real * u, d, lo, 2real, 1real / 200real);
    lemma_quotient(xr, y);
    lemma_quotient(xr, dr);
    let (p, q) = (xr / y, xr / dr);
    assert(-2real <= q <= 2real) by (nonlinear_arith)
        requires
            q * dr == xr,
            -2real * dr <= xr <= 2real * dr,
            dr > 0real,
    ;
    assert((p - q) * y == q * (dr - y)) by (nonlinear_arith)
        requires
            p * y == xr,
            q * dr == xr,
    ;
    assert(-1600real * u <= q * (dr - y) <= 1600real * u) by (nonlinear_arith)
        requires
            q * dr == xr,
            -1500real * u <= xr <= dr + 1500real * u,
            -1500real * u <= dr - y <= 1500real * u,
            dr >= 1real / 10real,
            u == 1real / 0x40_0000real,
    ;
    assert(-1real / 200real <= p - q <= 1real / 200real) by (nonlinear_arith)
        requires
            -1600real * u <= (p - q) * y <= 1600real * u,
            y >= 9real / 100real,
            u == 1real / 0x40_0000real,
    ;
}

/// A band that removes takes away what one that keeps would leave.
pub proof fn law_bands_keep_or_remove<K: Fn(Op, Width, u64, u64) -> u64>(c: &Calc<K>, f: ColorFilter, r: u8, g: u8, b: u8)
    requires
        rounds(c),
        weight(f.membership(c, r, g, b)),
    ensures
        f.mode is Keep ==> f.multiplier(c, r, g, b) == f.membership(c, r, g, b),
        f.mode is Remove ==> about(f.multiplier(c, r, g, b), 1real - amount(f.membership(c, r, g, b)), 3real / 0x40_0000real),
{
    lemma_constants();
    let m = f.membership(c, r, g, b);
    lemma_about_less(c, single(0x3f80_0000), 1real, 0real, m, amount(m), 0real, 1real, 3real / 0x40_0000real);
}

// ---------------------------------------------------------------- hues as pitch

/// The axis of hues is as long in octaves as from the lowest frequency to the highest: a hue
/// sounds as many octaves above eighty hertz as it is along the axis.
pub proof fn law_hues_sound_in_octaves<K: Fn(Op, Width, u64, u64) -> u64>(c: &Calc<K>, hue: F32) -> (octaves: F32)
    requires
        rounds(c),
        hue.finite(),
        forall|y: F32|
            y.finite() && -1real <= amount(y) <= 8real ==> (#[trigger] single(0x4000_0000).pow(c, y)).finite() && 0real <= amount(
                single(0x4000_0000).pow(c, y),
            ) <= 0x100real,
    ensures
        about(octaves, 664real / 100real * (kept_within(amount(hue), 0real, 330real) / 330real), 1real / 0x1_0000real),
        about(hue_to_freq(c, hue), 80real * amount(single(0x4000_0000).pow(c, octaves)), 1real / 128real),
{
    let u = 1real / 0x40_0000real;
    lemma_constants();
    lemma2_to64();
    let (span, scale, low) = (single(0x43a5_0000), single(0x40d4_7ae1), single(0x42a0_0000));
    lemma_constant(0x43a5_0000, 0xa5_0000, 135);
    lemma_constant(0x40d4_7ae1, 0xd4_7ae1, 129);
    lemma_constant(0x42a0_0000, 0xa0_0000, 133);
    assert(pow2(15) as real == 0x8000real);
    assert(pow2(21) as real == 0x20_0000real);
    assert(pow2(17) as real == 0x2_0000real);
    assert(amount(span) * 0x8000real == 0xa5_0000real);
    assert(amount(scale) * 0x20_0000real == 0xd4_7ae1real);
    assert(amount(low) * 0x2_0000real == 0xa0_0000real);
    assert(about(scale, 664real / 100real, u));
    crate::reals::lemma_kept(hue, single(0), span);
    let k = hue.limit(single(0), span);
    let kr = kept_within(amount(hue), 0real, 330real);
    lemma_about_over(c, k, kr, 0real, span, 330real, 1real, 3real * u);
    let q = k.div(c, span);
    let qr = kr / 330real;
    lemma_about_times(c, q, qr, 3real * u, 1real, scale, 664real / 100real, u, 7real, 40real * u);
    let y = q.mul(c, scale);
    assert(qr * (664real / 100real) == 664real / 100real * qr);
    let p = single(0x4000_0000).pow(c, y);
    lemma_about_times(c, low, 80real, 0real, 80real, p, amount(p), 0real, 0x100real, 1real / 128real);
    y
}

/// A frequency has the hue that is as far along the axis as the frequency is octaves above
/// eighty hertz, and hues end with the axis.
pub proof fn law_frequencies_have_a_hue<K: Fn(Op, Width, u64, u64) -> u64>(c: &Calc<K>, freq: F32) -> (ratio: F32)
    requires
        rounds(c),
        freq.finite() && 1real <= amount(freq) <= 0x8000real,
        forall|y: F32|
            y.finite() && 1real / 0x100real <= amount(y) <= 0x200real ==> (#[trigger] y.log2(c)).finite() && -16real <= amount(
                y.log2(c),
            ) <= 16real,
    ensures
        about(ratio, amount(freq) / 80real, 1real / 0x1000real),
        about(freq_to_hue(c, freq), kept_within(330real * (amount(ratio.log2(c)) / (664real / 100real)), 0real, 330real), 1real / 64real),
{
    let u = 1real / 0x40_0000real;
    lemma_constants();
    lemma2_to64();
    let (span, scale, low) = (single(0x43a5_0000), single(0x40d4_7ae1), single(0x42a0_0000));
    lemma_constant(0x43a5_0000, 0xa5_0000, 135);
    lemma_constant(0x40d4_7ae1, 0xd4_7ae1, 129);
    lemma_constant(0x42a0_0000, 0xa0_0000, 133);
    assert(pow2(15) as real == 0x8000real);
    assert(pow2(21) as real == 0x20_0000real);
    assert(pow2(17) as real == 0x2_0000real);
    assert(amount(span) * 0x8000real == 0xa5_0000real);
    assert(amount(scale) * 0x20_0000real == 0xd4_7ae1real);
    assert(amount(low) * 0x2_0000real == 0xa0_0000real);
    lemma_greater(freq, single(0x3f80_0000));
    let f = freq.max(single(0x3f80_0000));
    assert(amount(f) == amount(freq));
    lemma_about_over(c, f, amount(freq), 0real, low, 80real, 410real, 1real / 0x1000real);
    let ratio = f.div(c, low);
    let l = ratio.log2(c);
    let lr = amount(l);
    lemma_about_over(c, l, lr, 0real, scale, 6real, 3real, 8real * u);
    let q = l.div(c, scale);
    let (y, z) = (amount(scale), 664real / 100real);
    lemma_quotient(lr, y);
    lemma_quotient(lr, z);
    let (p, w) = (lr / y, lr / z);
    assert(-3real * u <= p - w <= 3real * u) by (nonlinear_arith)
        requires
            p * y == lr,
            w * z == lr,
            -16real <= lr <= 16real,
            z == 664real / 100real,
            -u <= y - z <= u,
            u == 1real / 0x40_0000real,
    ;
    assert(-3real <= w <= 3real);
    lemma_about_times(c, q, w, 12real * u, 3real, span, 330real, 0real, 330real, 1real / 64real);
    assert(w * 330real == 330real * w);
    crate::reals::lemma_about_kept(q.mul(c, span), 330real * w, 1real / 64real, single(0), span);
    ratio
}

} // verus!
