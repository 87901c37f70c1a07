//! What compression keeps, with arithmetic that rounds to nearest.
use crate::calc::{Calc, Op, Width};
use crate::echoes::{lemma_floor_size, rounds_singles_to_whole};
use crate::fx_video::{crunch_of, dct_basis, forward_sum, inverse_sum, kept_terms, posterized, quantized};
use crate::glows::lemma_whole_amount;
use crate::num::{single, F32};
use crate::reals::{
    about, amount, lemma_about_less, lemma_about_over, lemma_about_plus, lemma_about_times, lemma_bounded, lemma_compared, lemma_constant, lemma_constants,
    lemma_exactly, lemma_greater, lemma_quotient, lemma_root, size, speck,
};
use crate::rounding::{one, rounds};
use crate::saved::drops_fractions;
use crate::seen::lemma_wave_amounts;
use crate::shades::{law_channels_are_parts, lemma_byte, weight};
use crate::spectral::{bin_gain, kept_bins};
use crate::spread::lemma_single_counts;
use crate::washes::waves_stay_in_range;
use vstd::arithmetic::power2::{lemma2_to64, lemma_pow2_adds, pow2};
use vstd::prelude::*;

verus! {

// ---------------------------------------------------------------- transforms

/// Whether all but one of a block's entries are zero.
pub open spec fn lone(block: Seq<F32>, k: int) -> bool {
    &&& block.len() == 64
    &&& 0 <= k < 64
    &&& forall|j: int| 0 <= j < 64 ==> (#[trigger] block[j]).finite()
    &&& forall|j: int| 0 <= j < 64 && j != k ==> amount(#[trigger] block[j]) == 0real
}

/// Whether a table of waves is made of numbers no larger than one.
pub open spec fn calm(basis: Seq<F32>) -> bool {
    &&& basis.len() == 64
    &&& forall|j: int| 0 <= j < 64 ==> (#[trigger] basis[j]).finite() && -1real <= amount(basis[j]) <= 1real
}

/// A product of three, where the middle may be zero.
proof fn lemma_product<K: Fn(Op, Width, u64, u64) -> u64>(c: &Calc<K>, a: F32, b: F32, d: F32)
    requires
        rounds(c),
        a.finite() && -1real <= amount(a) <= 1real,
        d.finite() && -1real <= amount(d) <= 1real,
        b.finite() && -0x1000real <= amount(b) <= 0x1000real,
    ensures
        about(a.mul(c, b).mul(c, d), amount(a) * amount(b) * amount(d), 1real / 256real),
        amount(b) == 0real ==> amount(a.mul(c, b).mul(c, d)) == 0real,
{
    lemma_constants();
    let (x, y, z) = (amount(a), amount(b), amount(d));
    lemma_about_times(c, a, x, 0real, 1real, b, y, 0real, 0x1000real, 1real / 1000real);
    let p = x * y;
    lemma_about_times(c, a.mul(c, b), p, 1real / 1000real, 0x1000real, d, z, 0real, 1real, 1real / 256real);
    if y == 0real {
        assert(x * y == 0real && 0real * z == 0real) by (nonlinear_arith)
            requires
                y == 0real,
        ;
        lemma_exactly(c, a, b, single(0));
        lemma_exactly(c, a.mul(c, b), d, single(0));
    }
}

/// The first sums of a block with a lone entry.
proof fn lemma_lone_forward<K: Fn(Op, Width, u64, u64) -> u64>(c: &Calc<K>, basis: Seq<F32>, block: Seq<F32>, k: int, u: int, v: int, n: int)
    requires
        rounds(c),
        calm(basis),
        lone(block, k),
        -0x1000real <= amount(block[k]) <= 0x1000real,
        0 <= u < 8,
        0 <= v < 8,
        0 <= n <= 64,
    ensures
        ({
            let term = basis[u * 8 + k / 8].mul(c, block[k]).mul(c, basis[v * 8 + k % 8]);
            let s = forward_sum(c, basis, block, u, v, n);
            s.finite() && amount(s) == if n > k {
                amount(term)
            } else {
                0real
            }
        }),
    decreases n,
{
    lemma_constants();
    if n > 0 {
        let j = n - 1;
        lemma_lone_forward(c, basis, block, k, u, v, j);
        assert(0 <= u * 8 + j / 8 < 64 && 0 <= v * 8 + j % 8 < 64);
        assert(block[j].finite());
        lemma_product(c, basis[u * 8 + j / 8], block[j], basis[v * 8 + j % 8]);
        let s = forward_sum(c, basis, block, u, v, j);
        let t = basis[u * 8 + j / 8].mul(c, block[j]).mul(c, basis[v * 8 + j % 8]);
        if j == k {
            lemma_exactly(c, s, t, t);
        } else {
            lemma_exactly(c, s, t, s);
        }
    }
}

/// A lone pixel is in every term as far as the term's wave down is at its row and its wave across
/// at its column.
pub proof fn law_lone_pixels_are_in_every_term<K: Fn(Op, Width, u64, u64) -> u64>(c: &Calc<K>, basis: Seq<F32>, block: Seq<F32>, row: int, column: int, down: int, across: int)
    requires
        rounds(c),
        calm(basis),
        0 <= row < 8,
        0 <= column < 8,
        0 <= down < 8,
        0 <= across < 8,
        lone(block, row * 8 + column),
        -0x1000real <= amount(block[row * 8 + column]) <= 0x1000real,
    ensures
        about(
            forward_sum(c, basis, block, down, across, 64),
            amount(basis[down * 8 + row]) * amount(block[row * 8 + column]) * amount(basis[across * 8 + column]),
            1real / 256real,
        ),
{
    let k = row * 8 + column;
    assert(k / 8 == row && k % 8 == column);
    lemma_lone_forward(c, basis, block, k, down, across, 64);
    lemma_product(c, basis[down * 8 + row], block[k], basis[across * 8 + column]);
}

/// The first sums of terms with a lone one.
proof fn lemma_lone_inverse<K: Fn(Op, Width, u64, u64) -> u64>(c: &Calc<K>, basis: Seq<F32>, coef: Seq<F32>, k: int, y: int, x: int, n: int)
    requires
        rounds(c),
        calm(basis),
        lone(coef, k),
        -0x1000real <= amount(coef[k]) <= 0x1000real,
        0 <= y < 8,
        0 <= x < 8,
        0 <= n <= 64,
    ensures
        ({
            let term = basis[k / 8 * 8 + y].mul(c, coef[k]).mul(c, basis[k % 8 * 8 + x]);
            let s = inverse_sum(c, basis, coef, y, x, n);
            s.finite() && amount(s) == if n > k {
                amount(term)
            } else {
                0real
            }
        }),
    decreases n,
{
    lemma_constants();
    if n > 0 {
        let j = n - 1;
        lemma_lone_inverse(c, basis, coef, k, y, x, j);
        assert(0 <= j / 8 * 8 + y < 64 && 0 <= j % 8 * 8 + x < 64);
        assert(coef[j].finite());
        lemma_product(c, basis[j / 8 * 8 + y], coef[j], basis[j % 8 * 8 + x]);
        let s = inverse_sum(c, basis, coef, y, x, j);
        let t = basis[j / 8 * 8 + y].mul(c, coef[j]).mul(c, basis[j % 8 * 8 + x]);
        if j == k {
            lemma_exactly(c, s, t, t);
        } else {
            lemma_exactly(c, s, t, s);
        }
    }
}

/// A lone term is in every pixel as far as its wave down is at the row and its wave across at
/// the column.
pub proof fn law_lone_terms_are_in_every_pixel<K: Fn(Op, Width, u64, u64) -> u64>(c: &Calc<K>, basis: Seq<F32>, coef: Seq<F32>, down: int, across: int, row: int, column: int)
    requires
        rounds(c),
        calm(basis),
        0 <= row < 8,
        0 <= column < 8,
        0 <= down < 8,
        0 <= across < 8,
        lone(coef, down * 8 + across),
        -0x1000real <= amount(coef[down * 8 + across]) <= 0x1000real,
    ensures
        about(
            inverse_sum(c, basis, coef, row, column, 64),
            amount(basis[down * 8 + row]) * amount(coef[down * 8 + across]) * amount(basis[across * 8 + column]),
            1real / 256real,
        ),
{
    let k = down * 8 + across;
    assert(k / 8 == down && k % 8 == across);
    lemma_lone_inverse(c, basis, coef, k, row, column, 64);
    lemma_product(c, basis[down * 8 + row], coef[k], basis[across * 8 + column]);
}

/// Wave `u` of the transform goes round half as often as its number over the block, and is at
/// the middle of each pixel; it is scaled so that its squares add up to one: by the root of a
/// quarter, that of an eighth for the flat one.
pub proof fn law_waves_of_the_transform<K: Fn(Op, Width, u64, u64) -> u64>(c: &Calc<K>, u: u64, x: u64) -> (angle: F32)
    requires
        rounds(c),
        waves_stay_in_range(c),
        u < 8,
        x < 8,
    ensures
        about(angle, (2real * (x as real) + 1real) * (u as real) * (crate::filters::turn() / 2real) / 16real, 1real / 0x1000real),
        dct_basis(c, u, x) == (if u == 0 {
            single(0x3e00_0000)
        } else {
            single(0x3e80_0000)
        }).sqrt(c).mul(c, angle.cos(c)),
        u > 0 ==> about(dct_basis(c, u, x), amount(angle.cos(c)) / 2real, 1real / 0x10_0000real),
        u == 0 ==> size(amount(single(0x3e00_0000).sqrt(c)) - 35355real / 100000real) <= 1real / 10000real,
{
    let w = 1real / 0x40_0000real;
    lemma_constants();
    lemma2_to64();
    let (unity, two, pi, sixteen) = (single(0x3f80_0000), single(0x4000_0000), single(0x4049_0fdb), single(0x4180_0000));
    lemma_constant(0x4049_0fdb, 0xc9_0fdb, 128);
    lemma_constant(0x4180_0000, 0x80_0000, 131);
    assert(pow2(22) as real == 0x40_0000real);
    assert(pow2(19) as real == 0x8_0000real);
    assert(amount(pi) * 0x40_0000real == 0xc9_0fdbreal);
    assert(amount(sixteen) * 0x8_0000real == 0x80_0000real);
    lemma_single_counts(c, u);
    lemma_single_counts(c, x);
    let (m, n) = (F32::of_count(c, u), F32::of_count(c, x));
    let (ur, xr, half) = (u as real, x as real, crate::filters::turn() / 2real);
    assert(amount(pi) == half);
    lemma_about_times(c, two, 2real, 0real, 2real, n, xr, 0real, 7real, 16real * w);
    lemma_about_plus(c, two.mul(c, n), 2real * xr, 16real * w, unity, 1real, 0real, 15real, 34real * w);
    let p = two.mul(c, n).add(c, unity);
    let pr = 2real * xr + 1real;
    lemma_about_times(c, p, pr, 34real * w, 15real, m, ur, 0real, 7real, 360real * w);
    let q = p.mul(c, m);
    let qr = pr * ur;
    lemma_about_times(c, q, qr, 360real * w, 105real, pi, half, 0real, 4real, 2000real * w);
    let r = q.mul(c, pi);
    let rr = qr * half;
    lemma_about_over(c, r, rr, 2000real * w, sixteen, 16real, 27real, 1real / 0x1000real);
    let angle = r.div(c, sixteen);
    lemma_wave_amounts(c, angle);
    let (quarter, eighth) = (single(0x3e80_0000), single(0x3e00_0000));
    lemma_constant(0x3e80_0000, 0x80_0000, 125);
    lemma_constant(0x3e00_0000, 0x80_0000, 124);
    assert(pow2(25) as real == 0x200_0000real);
    assert(pow2(26) as real == 0x400_0000real);
    assert(amount(quarter) * 0x200_0000real == 0x80_0000real);
    assert(amount(eighth) * 0x400_0000real == 0x80_0000real);
    lemma_root(c, quarter, single(0x3f00_0000));
    assert(1real / 2real * (1real / 2real) == 1real / 4real);
    let root = quarter.sqrt(c);
    lemma_about_times(c, root, 1real / 2real, 0real, 1real, angle.cos(c), amount(angle.cos(c)), 0real, 1real, 3real * w);
    assert(1real / 2real * amount(angle.cos(c)) == amount(angle.cos(c)) / 2real);
    let (lo, hi) = (single(0x3eb5_0000), single(0x3eb5_0800));
    lemma_constant(0x3eb5_0000, 0xb5_0000, 125);
    lemma_constant(0x3eb5_0800, 0xb5_0800, 125);
    assert(amount(lo) * 0x200_0000real == 0xb5_0000real);
    assert(amount(hi) * 0x200_0000real == 0xb5_0800real);
    let (l, h) = (amount(lo), amount(hi));
    assert(l * l <= 1real / 8real <= h * h) by (nonlinear_arith)
        requires
            l * 0x200_0000real == 0xb5_0000real,
            h * 0x200_0000real == 0xb5_0800real,
    ;
    lemma_root(c, eighth, lo);
    lemma_root(c, eighth, hi);
    angle
}

/// Terms are kept by the square of the quality: one at none, all at full.
pub proof fn law_quality_keeps_terms<K: Fn(Op, Width, u64, u64) -> u64>(c: &Calc<K>, q: F32)
    requires
        rounds(c),
        weight(q),
    ensures
        ({
            let want = 1real + 63real * (amount(q) * amount(q));
            want - 1real - 1real / 0x1000real <= kept_terms(c, q) as real <= want + 1real / 0x1000real
        }),
{
    let u = 1real / 0x40_0000real;
    lemma_constants();
    lemma2_to64();
    let most = single(0x427c_0000);
    lemma_constant(0x427c_0000, 0xfc_0000, 132);
    assert(pow2(18) as real == 0x4_0000real);
    assert(amount(most) * 0x4_0000real == 0xfc_0000real);
    let a = amount(q);
    lemma_about_times(c, most, 63real, 0real, 63real, q, a, 0real, 1real, 65real * u);
    let pr = 63real * a;
    lemma_about_times(c, most.mul(c, q), pr, 65real * u, 63real, q, a, 0real, 1real, 140real * u);
    let sr = pr * a;
    assert(sr == 63real * (a * a) && 0real <= sr <= 63real) by (nonlinear_arith)
        requires
            sr == pr * a,
            pr == 63real * a,
            0real <= a <= 1real,
    ;
    lemma_about_plus(c, single(0x3f80_0000), 1real, 0real, most.mul(c, q).mul(c, q), sr, 140real * u, 64real, 210real * u);
    lemma_floor_size(c, single(0x3f80_0000).add(c, most.mul(c, q).mul(c, q)));
}

/// How coarse terms become: by the square of what the quality lacks.
pub proof fn law_terms_become_coarse<K: Fn(Op, Width, u64, u64) -> u64>(c: &Calc<K>, q: F32)
    requires
        rounds(c),
        weight(q),
    ensures
        about(crunch_of(c, q), (1real - amount(q)) * (1real - amount(q)), 1real / 0x4_0000real),
{
    let u = 1real / 0x40_0000real;
    lemma_constants();
    let a = amount(q);
    lemma_about_less(c, single(0x3f80_0000), 1real, 0real, q, a, 0real, 1real, 3real * u);
    let r = single(0x3f80_0000).sub(c, q);
    let rr = 1real - a;
    assert((3real * u) * (3real * u) <= u) by (nonlinear_arith)
        requires
            u == 1real / 0x40_0000real,
    ;
    lemma_about_times(c, r, rr, 3real * u, 1real, r, rr, 3real * u, 1real, 12real * u);
}

/// A term becomes the nearest of its levels, `k` steps from zero. Steps are longer for waves that
/// go round more often.
pub proof fn law_terms_move_to_their_levels<K: Fn(Op, Width, u64, u64) -> u64>(c: &Calc<K>, v: F32, crunch: F32, freq: u64) -> (k: int)
    requires
        rounds(c),
        rounds_singles_to_whole(c),
        v.finite() && -0x1000real <= amount(v) <= 0x1000real,
        weight(crunch),
        freq <= 14,
    ensures
        ({
            let step = 1real + amount(crunch) * (8real + 16real * (freq as real));
            &&& about(quantized(c, v, crunch, freq), (k as real) * step, 2real)
            &&& -step / 2real - 2real <= amount(v) - (k as real) * step <= step / 2real + 2real
        }),
{
    let u = 1real / 0x40_0000real;
    lemma_constants();
    lemma2_to64();
    let (unity, eight, sixteen) = (single(0x3f80_0000), single(0x4100_0000), single(0x4180_0000));
    lemma_constant(0x4100_0000, 0x80_0000, 130);
    lemma_constant(0x4180_0000, 0x80_0000, 131);
    assert(pow2(20) as real == 0x10_0000real);
    assert(pow2(19) as real == 0x8_0000real);
    assert(amount(eight) * 0x10_0000real == 0x80_0000real);
    assert(amount(sixteen) * 0x8_0000real == 0x80_0000real);
    lemma_single_counts(c, freq);
    let (n, f, a) = (F32::of_count(c, freq), freq as real, amount(crunch));
    lemma_about_times(c, sixteen, 16real, 0real, 16real, n, f, 0real, 14real, 230real * u);
    lemma_about_plus(c, eight, 8real, 0real, sixteen.mul(c, n), 16real * f, 230real * u, 232real, 480real * u);
    let s = eight.add(c, sixteen.mul(c, n));
    let sr = 8real + 16real * f;
    lemma_about_times(c, crunch, a, 0real, 1real, s, sr, 480real * u, 232real, 720real * u);
    let tr = a * sr;
    assert(0real <= tr <= 232real) by (nonlinear_arith)
        requires
            tr == a * sr,
            0real <= a <= 1real,
            0real <= sr <= 232real,
    ;
    lemma_about_plus(c, unity, 1real, 0real, crunch.mul(c, s), tr, 720real * u, 233real, 960real * u);
    let d = unity.add(c, crunch.mul(c, s));
    let step = 1real + tr;
    let y = amount(d);
    let x = amount(v);
    lemma_about_over(c, v, x, 0real, d, 1023real / 1024real, 0x1100real, 1real / 400real);
    let p = v.div(c, d);
    lemma_quotient(x, y);
    let r = p.round(c);
    assert(r.finite() && size(amount(r) - amount(p)) <= 1real / 2real && r.value() % one() == 0);
    lemma_whole_amount(r);
    let k = r.value() / one();
    let kr = k as real;
    let z = x / y;
    crate::reals::lemma_over(c, v, d);
    assert(speck() <= 1real);
    assert(-0x1005real <= z <= 0x1005real) by (nonlinear_arith)
        requires
            z * y == x,
            -0x1000real <= x <= 0x1000real,
            y >= 1023real / 1024real,
    ;
    assert(-0x1010real <= kr <= 0x1010real);
    let g = size(z);
    assert(g * y == size(x)) by (nonlinear_arith)
        requires
            z * y == x,
            y > 0real,
            g == size(z),
    ;
    assert(kr * y - x <= y / 2real + 1real / 2real && x - kr * y <= y / 2real + 1real / 2real) by (nonlinear_arith)
        requires
            z * y == x,
            0x40_0000real * (kr - z - 1real / 2real) <= g + 1real,
            0x40_0000real * (z - kr - 1real / 2real) <= g + 1real,
            0real <= g * y <= 0x1000real,
            0real < y <= 234real,
    ;
    assert(-1real <= kr * (y - step) <= 1real) by (nonlinear_arith)
        requires
            -0x1010real <= kr <= 0x1010real,
            -960real * u <= y - step <= 960real * u,
            u == 1real / 0x40_0000real,
    ;
    assert(kr * (y - step) == kr * y - kr * step) by (nonlinear_arith);
    assert(-0x1200real <= kr * y <= 0x1200real) by (nonlinear_arith)
        requires
            kr * y - x <= y / 2real + 1real / 2real,
            x - kr * y <= y / 2real + 1real / 2real,
            -0x1000real <= x <= 0x1000real,
            0real < y <= 234real,
    ;
    crate::reals::lemma_times(c, r, d);
    assert(speck() <= 1real);
    k
}

/// A channel becomes the nearest of its levels, `k` of them up, to the byte below.
pub proof fn law_channels_move_to_their_levels<K: Fn(Op, Width, u64, u64) -> u64>(c: &Calc<K>, v: u8, levels: F32) -> (k: int)
    requires
        rounds(c),
        rounds_singles_to_whole(c),
        drops_fractions(c),
        levels.finite() && 2real <= amount(levels) <= 256real,
    ensures
        ({
            let n = amount(levels) - 1real;
            &&& -1real / 2real - 1real / 0x800real <= (k as real) - (v as real) / 255real * n <= 1real / 2real + 1real / 0x800real
            &&& -1real / 16real <= 255real * (k as real) / n - (posterized(c, v, levels) as real) <= 1real + 1real / 16real || 255real * (k as real) / n
                > 255real
        }),
{
    let u = 1real / 0x40_0000real;
    lemma_constants();
    lemma2_to64();
    law_channels_are_parts(c, v);
    let unity = single(0x3f80_0000);
    lemma_about_less(c, levels, amount(levels), 0real, unity, 1real, 0real, 255real, 258real * u);
    lemma_greater(levels.sub(c, unity), unity);
    let m = levels.sub(c, unity).max(unity);
    let n = amount(levels) - 1real;
    assert(about(m, n, 258real * u));
    let y = amount(m);
    let vr = (v as real) / 255real;
    lemma_about_times(c, channel_of(c, v), vr, 3real * u, 1real, m, n, 258real * u, 255real, 1300real * u);
    let p = channel_of(c, v).mul(c, m);
    let r = p.round(c);
    assert(r.finite() && size(amount(r) - amount(p)) <= 1real / 2real && r.value() % one() == 0);
    lemma_whole_amount(r);
    let k = r.value() / one();
    let kr = k as real;
    assert(0real <= vr * n <= n) by (nonlinear_arith)
        requires
            0real <= vr <= 1real,
            1real <= n <= 255real,
    ;
    if k < 0 {
        assert(kr <= -1real);
    }
    lemma_level(c, r, kr, m, n);
    k
}

/// A channel as a number.
pub open spec fn channel_of<K: Fn(Op, Width, u64, u64) -> u64>(c: &Calc<K>, v: u8) -> F32 {
    crate::video::channel(c, v)
}

proof fn lemma_level<K: Fn(Op, Width, u64, u64) -> u64>(c: &Calc<K>, r: F32, kr: real, m: F32, n: real)
    requires
        rounds(c),
        drops_fractions(c),
        r.finite() && amount(r) == kr,
        0real <= kr <= 256real,
        kr <= n + 1real,
        1real <= n <= 255real,
        about(m, n, 258real / 0x40_0000real),
    ensures
        ({
            let byte = r.div(c, m).mul(c, single(0x437f_0000)).to_u8(c) as real;
            -1real / 16real <= 255real * kr / n - byte <= 1real + 1real / 16real || 255real * kr / n > 255real
        }),
{
    let u = 1real / 0x40_0000real;
    lemma2_to64();
    let full = single(0x437f_0000);
    lemma_constant(0x437f_0000, 0xff_0000, 134);
    assert(pow2(16) as real == 0x1_0000real);
    assert(amount(full) * 0x1_0000real == 0xff_0000real);
    let y = amount(m);
    let lo = y;
    let w = (2real * 3real + 1real) / 0x40_0000real;
    assert(w * lo + 0real <= (8real * u) * lo) by (nonlinear_arith)
        requires
            w == 7real * u,
            lo > 0real,
            u > 0real,
    ;
    lemma_about_over(c, r, kr, 0real, m, lo, 3real, 8real * u);
    lemma_quotient(kr, y);
    lemma_quotient(kr, n);
    let (p, q) = (kr / y, kr / n);
    assert(0real <= q <= 2real) by (nonlinear_arith)
        requires
            q * n == kr,
            0real <= kr <= n + 1real,
            n >= 1real,
    ;
    assert(-800real * u <= p - q <= 800real * u) by (nonlinear_arith)
        requires
            p * y == kr,
            q * n == kr,
            0real <= q <= 2real,
            -258real * u <= y - n <= 258real * u,
            y >= 999real / 1000real,
            u == 1real / 0x40_0000real,
    ;
    let d = r.div(c, m);
    lemma_about_times(c, d, q, 810real * u, 3real, full, 255real, 0real, 255real, 1real / 17real);
    assert(q * 255real == 255real * kr / n) by (nonlinear_arith)
        requires
            q * n == kr,
            n > 0real,
            q == kr / n,
    ;
    lemma_byte(c, d.mul(c, full));
}

/// Bins are kept by the square of the quality: a fiftieth of them at none, all at full.
pub proof fn law_quality_keeps_bins<K: Fn(Op, Width, u64, u64) -> u64>(c: &Calc<K>, q: F32)
    requires
        rounds(c),
        weight(q),
    ensures
        ({
            let want = (crate::spectral::SPECTRAL_HOP as real) * (1real / 50real + 49real / 50real * (amount(q) * amount(q)));
            want - 1real - 1real / 32real <= kept_bins(c, q) as real <= want + 1real / 32real
        }),
{
    let u = 1real / 0x40_0000real;
    lemma_constants();
    lemma2_to64();
    let (base, more) = (single(0x3ca3_d70a), single(0x3f7a_e148));
    lemma_constant(0x3ca3_d70a, 0xa3_d70a, 121);
    lemma_constant(0x3f7a_e148, 0xfa_e148, 126);
    assert(pow2(29) as real == 0x2000_0000real);
    assert(pow2(24) as real == 0x100_0000real);
    assert(amount(base) * 0x2000_0000real == 0xa3_d70areal);
    assert(amount(more) * 0x100_0000real == 0xfa_e148real);
    assert(about(base, 1real / 50real, u));
    assert(about(more, 49real / 50real, u));
    let a = amount(q);
    lemma_about_times(c, more, 49real / 50real, u, 1real, q, a, 0real, 1real, 4real * u);
    let pr = 49real / 50real * a;
    lemma_about_times(c, more.mul(c, q), pr, 4real * u, 1real, q, a, 0real, 1real, 7real * u);
    let sr = pr * a;
    assert(sr == 49real / 50real * (a * a) && 0real <= sr <= 49real / 50real) by (nonlinear_arith)
        requires
            sr == pr * a,
            pr == 49real / 50real * a,
            0real <= a <= 1real,
    ;
    lemma_about_plus(c, base, 1real / 50real, u, more.mul(c, q).mul(c, q), sr, 7real * u, 1real, 11real * u);
    let t = base.add(c, more.mul(c, q).mul(c, q));
    let tr = 1real / 50real + sr;
    lemma_single_counts(c, crate::spectral::SPECTRAL_HOP as u64);
    let h = F32::of_count(c, crate::spectral::SPECTRAL_HOP as u64);
    let hr = crate::spectral::SPECTRAL_HOP as real;
    lemma_about_times(c, h, hr, 0real, 0x800real, t, tr, 11real * u, 1real, 1real / 64real);
    let y = h.mul(c, t);
    assert(hr * tr >= 10real) by (nonlinear_arith)
        requires
            hr == 512real,
            tr >= 1real / 50real,
    ;
    lemma_floor_size(c, y);
}

/// A loud bin is scaled to the nearest of its levels below the loudest, `k` of them up; one that
/// is less loud than what is kept is silent.
pub proof fn law_bins_move_to_their_levels<K: Fn(Op, Width, u64, u64) -> u64>(c: &Calc<K>, mag: F32, threshold: F32, top: F32, levels: F32) -> (k: int)
    requires
        rounds(c),
        rounds_singles_to_whole(c),
        mag.finite() && top.finite() && threshold.finite() && levels.finite(),
        1real / 0x400real <= amount(mag) <= amount(top) <= 0x400real,
        1real <= amount(levels) <= 0x1000real,
    ensures
        amount(mag) < amount(threshold) ==> amount(bin_gain(c, mag, threshold, top, levels)) == 0real,
        amount(mag) >= amount(threshold) ==> ({
            let at = amount(mag) / amount(top) * amount(levels);
            let got = amount(bin_gain(c, mag, threshold, top, levels)) * amount(mag);
            let want = (k as real) / amount(levels) * amount(top);
            &&& -1real / 2real - 1real / 128real <= (k as real) - at <= 1real / 2real + 1real / 128real
            &&& -amount(top) / 0x1_0000real <= got - want <= amount(top) / 0x1_0000real
        }),
{
    let u = 1real / 0x40_0000real;
    lemma_constants();
    lemma2_to64();
    let tiny = single(0x3089_705f);
    lemma_constant(0x3089_705f, 0x89_705f, 97);
    lemma_pow2_adds(32, 21);
    assert(pow2(53) as real == 0x20_0000_0000_0000real);
    assert(amount(tiny) * 0x20_0000_0000_0000real == 0x89_705freal);
    lemma_compared(tiny, mag);
    lemma_compared(mag, threshold);
    lemma_exactly(c, single(0), mag, single(0));
    let (m, t, l) = (amount(mag), amount(top), amount(levels));
    let w = (2real * 1real + 1real) / 0x40_0000real;
    assert(w * t + 0real <= (4real * u) * t) by (nonlinear_arith)
        requires
            w == 3real * u,
            t > 0real,
            u > 0real,
    ;
    lemma_about_over(c, mag, m, 0real, top, t, 1real, 4real * u);
    let p = mag.div(c, top);
    let pr = m / t;
    lemma_about_times(c, p, pr, 4real * u, 1real, levels, l, 0real, 0x1000real, 1real / 128real);
    let q = p.mul(c, levels);
    lemma_quotient(m, t);
    let r = q.round(c);
    assert(r.finite() && size(amount(r) - amount(q)) <= 1real / 2real && r.value() % one() == 0);
    lemma_whole_amount(r);
    let k = r.value() / one();
    assert(0real <= pr <= 1real && 0real <= pr * l <= l) by (nonlinear_arith)
        requires
            pr * t == m,
            0real <= m <= t,
            t > 0real,
            l > 0real,
    ;
    if k < 0 {
        assert(k as real <= -1real);
    }
    lemma_scaled_level(c, r, k as real, levels, l, top, t, mag, m);
    k
}

/// A level of the loudest, as a gain.
proof fn lemma_scaled_level<K: Fn(Op, Width, u64, u64) -> u64>(c: &Calc<K>, r: F32, k: real, levels: F32, l: real, top: F32, t: real, mag: F32, m: real)
    requires
        rounds(c),
        r.finite() && amount(r) == k,
        levels.finite() && amount(levels) == l,
        top.finite() && amount(top) == t,
        mag.finite() && amount(mag) == m,
        1real / 0x400real <= m <= t <= 0x400real,
        1real <= l <= 0x1000real,
        0real <= k <= 2real * l,
    ensures
        ({
            let got = amount(r.div(c, levels).mul(c, top).div(c, mag)) * m;
            -t / 0x1_0000real <= got - k / l * t <= t / 0x1_0000real
        }),
{
    let u = 1real / 0x40_0000real;
    let ut = t / 0x40_0000real;
    let w = (2real * 2real + 1real) / 0x40_0000real;
    assert(w * l + 0real <= (6real * u) * l) by (nonlinear_arith)
        requires
            w == 5real * u,
            l > 0real,
            u > 0real,
    ;
    lemma_about_over(c, r, k, 0real, levels, l, 2real, 6real * u);
    let a = r.div(c, levels);
    let (ar, want) = (amount(a), k / l);
    let x = ar * t;
    lemma_bounded(ar, 3real, t, t);
    crate::reals::lemma_times(c, a, top);
    let b = a.mul(c, top);
    let br = amount(b);
    assert(speck() == 1real / 0x1_0000_0000_0000_0000real);
    assert(-7real * t <= br <= 7real * t && -4real * ut <= br - x <= 4real * ut) by (nonlinear_arith)
        requires
            -3real * t <= x <= 3real * t,
            0x40_0000real * size(br - x) <= size(x) + 1real / 0x1_0000_0000_0000_0000real,
            t >= 1real / 0x400real,
            ut == t / 0x40_0000real,
    ;
    lemma_quotient(br, m);
    let y = br / m;
    assert(-0x1000_0000real <= y <= 0x1000_0000real) by (nonlinear_arith)
        requires
            y * m == br,
            -7real * t <= br <= 7real * t,
            t <= 0x400real,
            m >= 1real / 0x400real,
    ;
    crate::reals::lemma_over(c, b, mag);
    let g = amount(b.div(c, mag));
    let sy = size(y);
    assert(sy * m <= 7real * t) by (nonlinear_arith)
        requires
            sy == size(y),
            y * m == br,
            -7real * t <= br <= 7real * t,
            m > 0real,
    ;
    let sd = size(g - y);
    assert(sd * m <= 8real * ut) by (nonlinear_arith)
        requires
            0x40_0000real * sd <= sy + 1real / 0x1_0000_0000_0000_0000real,
            sy * m <= 7real * t,
            0real < m <= t,
            ut == t / 0x40_0000real,
    ;
    assert(-8real * ut <= g * m - br <= 8real * ut) by (nonlinear_arith)
        requires
            sd == size(g - y),
            sd * m <= 8real * ut,
            y * m == br,
            m > 0real,
    ;
    assert(-6real * ut <= x - want * t <= 6real * ut) by (nonlinear_arith)
        requires
            x == ar * t,
            -6real / 0x40_0000real <= ar - want <= 6real / 0x40_0000real,
            ut == t / 0x40_0000real,
            t > 0real,
    ;
}

} // verus!
