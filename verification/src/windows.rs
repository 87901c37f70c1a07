//! What windows and spectra weigh, with arithmetic that rounds to nearest.
use crate::calc::{Calc, Op, Width};
use crate::fft::{hann_of, magnitude, Cpx};
use crate::num::{single, F32};
use crate::reals::{
    about, amount, lemma_about_less, lemma_about_over, lemma_about_plus, lemma_about_times, lemma_constant, lemma_constants, lemma_quotient, lemma_root, lemma_times,
    speck,
};
use crate::rounding::rounds;
use crate::seen::lemma_wave_amounts;
use crate::spread::lemma_single_counts;
use crate::stretch::{overlap, rephased};
use crate::washes::waves_stay_in_range;
use vstd::arithmetic::power2::{lemma2_to64, pow2};
use vstd::prelude::*;

verus! {

proof fn lemma_turn()
    ensures
        single(0x40c9_0fdb).finite(),
        amount(single(0x40c9_0fdb)) == crate::filters::turn(),
{
    lemma2_to64();
    lemma_constant(0x40c9_0fdb, 0xc9_0fdb, 129);
    assert(pow2(21) as real == 0x20_0000real);
    assert(amount(single(0x40c9_0fdb)) * 0x20_0000real == 0xc9_0fdbreal);
}

/// The angle of a place in a window.
proof fn lemma_window_angle<K: Fn(Op, Width, u64, u64) -> u64>(c: &Calc<K>, p: u64, w: u64)
    requires
        rounds(c),
        1 <= w <= 0x1_0000,
        p <= w,
    ensures
        about(
            single(0x40c9_0fdb).mul(c, F32::of_count(c, p)).div(c, F32::of_count(c, w)),
            crate::filters::turn() * ((p as real) / (w as real)),
            1real / 0x1_0000real,
        ),
{
    lemma_turn();
    lemma_single_counts(c, p);
    lemma_single_counts(c, w);
    let (tau, n, d) = (single(0x40c9_0fdb), F32::of_count(c, p), F32::of_count(c, w));
    let (t, pr, wr) = (crate::filters::turn(), p as real, w as real);
    let x = t * pr;
    assert(0real <= x <= 7real * pr && 0real <= x <= 7real * wr && x <= 0x10_0000real) by (nonlinear_arith)
        requires
            x == t * pr,
            0real <= t <= 7real,
            0real <= pr <= wr,
            wr <= 0x1_0000real,
    ;
    lemma_times(c, tau, n);
    assert(speck() <= 1real / 0x1_0000_0000real);
    let m = tau.mul(c, n);
    let e = (7real * wr + 1real) / 0x40_0000real;
    assert(about(m, x, e));
    let k = (2real * 8real + 1real) / 0x40_0000real;
    assert(k * wr + e <= (1real / 0x1_0000real) * wr) by (nonlinear_arith)
        requires
            k == 17real / 0x40_0000real,
            e == (7real * wr + 1real) / 0x40_0000real,
            wr >= 1real,
    ;
    lemma_about_over(c, m, x, e, d, wr, 8real, 1real / 0x1_0000real);
    lemma_quotient(x, wr);
    lemma_quotient(pr, wr);
    let (q, r) = (x / wr, pr / wr);
    assert(q == t * r) by (nonlinear_arith)
        requires
            q * wr == t * pr,
            r * wr == pr,
            wr >= 1real,
    ;
}

/// Segments of a stretch are weighed over the window by half of one and the square of the cosine
/// that goes round once.
pub proof fn law_segments_are_weighed_by_a_cosine<K: Fn(Op, Width, u64, u64) -> u64>(c: &Calc<K>, p: u64, w: u64) -> (angle: F32)
    requires
        rounds(c),
        waves_stay_in_range(c),
        1 <= w <= 0x1_0000,
        p <= w,
    ensures
        about(angle, crate::filters::turn() * ((p as real) / (w as real)), 1real / 0x1_0000real),
        about(overlap(c, p, w), (1real + amount(angle.cos(c)) * amount(angle.cos(c))) / 2real, 1real / 0x8_0000real),
{
    let u = 1real / 0x40_0000real;
    lemma_constants();
    lemma_window_angle(c, p, w);
    let angle = single(0x40c9_0fdb).mul(c, F32::of_count(c, p)).div(c, F32::of_count(c, w));
    lemma_wave_amounts(c, angle);
    let k = angle.cos(c);
    let kr = amount(k);
    lemma_about_times(c, k, kr, 0real, 1real, k, kr, 0real, 1real, 2real * u);
    let q = kr * kr;
    assert(0real <= q <= 1real) by (nonlinear_arith)
        requires
            q == kr * kr,
            -1real <= kr <= 1real,
    ;
    lemma_about_plus(c, single(0x3f80_0000), 1real, 0real, k.mul(c, k), q, 2real * u, 2real, 6real * u);
    let s = 1real + q;
    lemma_about_times(c, single(0x3f00_0000), 1real / 2real, 0real, 1real / 2real, single(0x3f80_0000).add(c, k.mul(c, k)), s, 6real * u, 2real, 6real * u);
    assert(1real / 2real * s == s / 2real);
    angle
}

/// A number is the square of its root, but for rounding.
proof fn lemma_squared_root<K: Fn(Op, Width, u64, u64) -> u64>(c: &Calc<K>, a: F32)
    requires
        rounds(c),
        a.finite() && 0real <= amount(a) <= 0x100_0000real,
        amount(a.sqrt(c)) >= 1real / 0x10_0000real,
    ensures
        ({
            let s = amount(a.sqrt(c));
            &&& a.sqrt(c).finite()
            &&& s * s * (1real - 1real / 0x1000real) <= amount(a) <= s * s * (1real + 1real / 0x1000real)
        }),
{
    lemma2_to64();
    lemma_constants();
    let r = a.sqrt(c);
    let unity = single(0x4580_0000);
    lemma_constant(0x4580_0000, 0x80_0000, 139);
    assert(pow2(11) as real == 0x800real);
    assert(amount(unity) * 0x800real == 0x80_0000real);
    assert(amount(unity) * amount(unity) == 0x100_0000real);
    lemma_root(c, a, unity);
    let s = amount(r);
    let (lo, hi) = (single(0x3f7f_ff00), single(0x3f80_0100));
    lemma_constant(0x3f7f_ff00, 0xff_ff00, 126);
    lemma_constant(0x3f80_0100, 0x80_0100, 127);
    assert(pow2(24) as real == 0x100_0000real);
    assert(pow2(23) as real == 0x80_0000real);
    assert(amount(lo) * 0x100_0000real == 0xff_ff00real);
    assert(amount(hi) * 0x80_0000real == 0x80_0100real);
    let (lr, hr) = (amount(lo), amount(hi));
    assert(0real <= s * lr <= 0x2000real && 0real <= s * hr <= 0x2000real) by (nonlinear_arith)
        requires
            0real <= s <= 0x1000real,
            0real < lr < 1real,
            1real < hr < 2real,
    ;
    lemma_times(c, r, lo);
    lemma_times(c, r, hi);
    let (y, z) = (r.mul(c, lo), r.mul(c, hi));
    let (yr, zr) = (amount(y), amount(z));
    assert(speck() == 1real / 0x1_0000_0000_0000_0000real);
    let t = 1real / 0x20_0000real;
    assert(s * (lr - t) <= yr <= s * (lr + t) && s * (hr - t) <= zr <= s * (hr + t)) by (nonlinear_arith)
        requires
            0x40_0000real * (yr - s * lr) <= s * lr + 1real / 0x1_0000_0000_0000_0000real,
            0x40_0000real * (s * lr - yr) <= s * lr + 1real / 0x1_0000_0000_0000_0000real,
            0x40_0000real * (zr - s * hr) <= s * hr + 1real / 0x1_0000_0000_0000_0000real,
            0x40_0000real * (s * hr - zr) <= s * hr + 1real / 0x1_0000_0000_0000_0000real,
            s >= 1real / 0x10_0000real,
            0real < lr < 1real,
            1real < hr < 5real / 4real,
            t == 1real / 0x20_0000real,
    ;
    assert(0real <= yr < s < zr && s * (1real - 1real / 0x4000real) <= yr && zr <= s * (1real + 1real / 0x4000real)) by (nonlinear_arith)
        requires
            s * (lr - t) <= yr <= s * (lr + t),
            s * (hr - t) <= zr <= s * (hr + t),
            s > 0real,
            lr * 0x100_0000real == 0xff_ff00real,
            hr * 0x80_0000real == 0x80_0100real,
            t == 1real / 0x20_0000real,
    ;
    lemma_root(c, a, y);
    lemma_root(c, a, z);
    let x = amount(a);
    assert(yr * yr < x < zr * zr);
    assert(s * (1real - 1real / 0x4000real) >= 0real) by (nonlinear_arith)
        requires
            s > 0real,
    ;
    assert(s * s * (1real - 1real / 0x1000real) <= yr * yr && zr * zr <= s * s * (1real + 1real / 0x1000real)) by (nonlinear_arith)
        requires
            0real <= s * (1real - 1real / 0x4000real) <= yr,
            0real <= zr <= s * (1real + 1real / 0x4000real),
            s > 0real,
    ;
}

/// The square of a magnitude is what the squares of both parts make together.
pub proof fn law_magnitudes_are_lengths<K: Fn(Op, Width, u64, u64) -> u64>(c: &Calc<K>, z: Cpx)
    requires
        rounds(c),
        z.re.finite() && -0x400real <= amount(z.re) <= 0x400real,
        z.im.finite() && -0x400real <= amount(z.im) <= 0x400real,
        amount(z.re) * amount(z.re) + amount(z.im) * amount(z.im) >= 4real,
    ensures
        ({
            let (x, y, m) = (amount(z.re), amount(z.im), amount(magnitude(c, z)));
            let mm = m * m;
            &&& magnitude(c, z).finite()
            &&& mm - mm / 0x1000real - 2real <= x * x + y * y <= mm + mm / 0x1000real + 2real
        }),
{
    lemma_constants();
    let (x, y) = (amount(z.re), amount(z.im));
    lemma_about_times(c, z.re, x, 0real, 0x400real, z.re, x, 0real, 0x400real, 1real / 3real);
    lemma_about_times(c, z.im, y, 0real, 0x400real, z.im, y, 0real, 0x400real, 1real / 3real);
    let (p, q) = (x * x, y * y);
    assert(p >= 0real && q >= 0real) by (nonlinear_arith)
        requires
            p == x * x,
            q == y * y,
    ;
    lemma_about_plus(c, z.re.mul(c, z.re), p, 1real / 3real, z.im.mul(c, z.im), q, 1real / 3real, 0x20_0000real, 3real / 2real);
    let s = z.re.mul(c, z.re).add(c, z.im.mul(c, z.im));
    lemma_root(c, s, single(0x3f80_0000));
    lemma_squared_root(c, s);
    let m = amount(magnitude(c, z));
    let mm = m * m;
    assert(mm * (1real - 1real / 0x1000real) == mm - mm / 0x1000real && mm * (1real + 1real / 0x1000real) == mm + mm / 0x1000real) by (nonlinear_arith);
}

/// A bin that gets a phase keeps its magnitude and points that way.
pub proof fn law_bins_point_where_their_phase_says<K: Fn(Op, Width, u64, u64) -> u64>(c: &Calc<K>, z: Cpx, ph: F32)
    requires
        rounds(c),
        waves_stay_in_range(c),
        ph.finite(),
        magnitude(c, z).finite() && 0real <= amount(magnitude(c, z)) <= 0x400real,
    ensures
        about(rephased(c, z, ph).re, amount(magnitude(c, z)) * amount(ph.cos(c)), 1real / 0x800real),
        about(rephased(c, z, ph).im, amount(magnitude(c, z)) * amount(ph.sin(c)), 1real / 0x800real),
{
    lemma_wave_amounts(c, ph);
    let m = magnitude(c, z);
    lemma_about_times(c, m, amount(m), 0real, 0x400real, ph.cos(c), amount(ph.cos(c)), 0real, 1real, 1real / 0x800real);
    lemma_about_times(c, m, amount(m), 0real, 0x400real, ph.sin(c), amount(ph.sin(c)), 0real, 1real, 1real / 0x800real);
}

/// A window opens by the cosine that goes round once over it: half of what it lacks to one.
pub proof fn law_windows_open_by_a_cosine<K: Fn(Op, Width, u64, u64) -> u64>(c: &Calc<K>, i: u64, n: u64) -> (angle: F32)
    requires
        rounds(c),
        waves_stay_in_range(c),
        1 <= n <= 0x1_0000,
        i <= n,
    ensures
        about(angle, crate::filters::turn() * ((i as real) / (n as real)), 1real / 0x1_0000real),
        about(hann_of(c, i, n), (1real - amount(angle.cos(c))) / 2real, 1real / 0x8_0000real),
{
    let u = 1real / 0x40_0000real;
    lemma_constants();
    lemma_window_angle(c, i, n);
    let angle = single(0x40c9_0fdb).mul(c, F32::of_count(c, i)).div(c, F32::of_count(c, n));
    lemma_wave_amounts(c, angle);
    let (half, k) = (single(0x3f00_0000), angle.cos(c));
    let kr = amount(k);
    lemma_about_times(c, half, 1real / 2real, 0real, 1real / 2real, k, kr, 0real, 1real, 2real * u);
    lemma_about_less(c, half, 1real / 2real, 0real, half.mul(c, k), 1real / 2real * kr, 2real * u, 1real, 6real * u);
    assert(1real / 2real - 1real / 2real * kr == (1real - kr) / 2real);
    angle
}

} // verus!
