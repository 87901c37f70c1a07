//! How exact transforms are: bounds for arithmetic that rounds to nearest, whose twiddle
//! factors follow roots of unity.
use crate::calc::{Calc, Op, Width};
use crate::fft::{
    crossed_difference, crossed_sum, lemma_reversed_bound, merged_value, reordered, reversed, stage, stages, step_factor, transformed, turned,
    twiddle, Cpx,
};
use crate::masks::lemma_ones;
use crate::num::{single, F32};
use crate::plane::{
    lemma_nought_within, lemma_of_parts, lemma_parts, lemma_product_within, lemma_same_total, lemma_scaled_less, lemma_scaled_twice,
    lemma_scaled_within, lemma_sum_size, lemma_times_less, lemma_times_regrouped, lemma_times_scaled, lemma_total_by, lemma_total_halved, lemma_total_of_one, lemma_total_of_sums, lemma_total_scaled,
    lemma_total_shifted, lemma_total_swapped, lemma_total_within, lemma_unscaled_within, lemma_wider, nought, total, within,
    Cx,
};
use crate::rounding::{
    apart, grid, lemma_add, lemma_div, lemma_error, lemma_exact, lemma_grid, lemma_mul, lemma_of_count, lemma_reached,
    lemma_sub, nearest, one, rounds,
};
use vstd::arithmetic::power2::{
    lemma2_to64, lemma_pow2_adds, lemma_pow2_pos, lemma_pow2_strictly_increases, lemma_pow2_unfold, pow2,
};
use vstd::prelude::*;

verus! {

// ----------------------------------------------------------------- rounding

/// The complex number that a pair of singles denotes, in their units.
pub open spec fn val(z: Cpx) -> Cx {
    Cx { re: z.re.value(), im: z.im.value() }
}

pub open spec fn numeric(z: Cpx) -> bool {
    z.re.finite() && z.im.finite()
}

/// Rounding changes a number by a 2^22nd part of it and a tiny step at most.
proof fn lemma_close(x: F32, n: int, d: int, e: int)
    requires
        nearest(x, n, d),
        d > 0,
        24 <= e < 255,
        apart(n, 0) < 0x80_0000 * (pow2((e - 1) as nat) * d),
    ensures
        0x40_0000 * apart(x.value() * d, n) <= apart(n, 0) + 0x2000_0000_0000 * d,
    decreases e,
{
    let h = pow2((e - 1) as nat) * d;
    lemma_error(x, n, d, e);
    if 0x40_0000 * h <= apart(n, 0) {
    } else if e == 24 {
        lemma2_to64();
        assert(h == 0x80_0000 * d);
    } else {
        let g = pow2((e - 2) as nat) * d;
        lemma_pow2_unfold((e - 1) as nat);
        assert(h == 2 * g) by (nonlinear_arith)
            requires
                h == pow2((e - 1) as nat) * d,
                g == pow2((e - 2) as nat) * d,
                pow2((e - 1) as nat) == 2 * pow2((e - 2) as nat),
        ;
        lemma_close(x, n, d, e - 1);
    }
}

/// The same where the number is at most 2^64.
pub(crate) proof fn lemma_near(x: F32, n: int, d: int)
    requires
        nearest(x, n, d),
        d > 0,
        apart(n, 0) <= 0x1_0000_0000_0000_0000 * (one() * d),
    ensures
        0x40_0000 * apart(x.value() * d, n) <= apart(n, 0) + 0x2000_0000_0000 * d,
{
    lemma_pow2_pos(149);
    lemma_pow2_adds(64, 149);
    lemma2_to64();
    let (u, t) = (one(), pow2(213) as int);
    assert(apart(n, 0) < 0x80_0000 * (t * d)) by (nonlinear_arith)
        requires
            apart(n, 0) <= 0x1_0000_0000_0000_0000 * (u * d),
            t == 0x1_0000_0000_0000_0000 * u,
            u > 0,
            d > 0,
    {
        assert(t * d == 0x1_0000_0000_0000_0000 * (u * d));
        assert(u * d > 0);
    }
    lemma_close(x, n, d, 214);
}

/// One part of a product of complex numbers: two products and their difference or sum.
#[verifier::rlimit(40)]
proof fn lemma_two_products<K: Fn(Op, Width, u64, u64) -> u64>(c: &Calc<K>, p: F32, q: F32, r: F32, s: F32, a: int, k: int)
    requires
        rounds(c),
        p.finite() && q.finite() && r.finite() && s.finite(),
        apart(p.value(), 0) <= a,
        apart(r.value(), 0) <= a,
        apart(q.value(), 0) <= 2 * one(),
        apart(s.value(), 0) <= 2 * one(),
        a <= 0x1000_0000_0000_0000 * one(),
        0x40_0000 * k >= 10 * a + 0x8000_0000_0000,
    ensures
        ({
            let x = p.mul(c, q).sub(c, r.mul(c, s));
            let y = p.mul(c, q).add(c, r.mul(c, s));
            &&& x.finite()
            &&& y.finite()
            &&& apart(x.value() * one(), p.value() * q.value() - r.value() * s.value()) <= k * one()
            &&& apart(y.value() * one(), p.value() * q.value() + r.value() * s.value()) <= k * one()
        }),
{
    let u = one();
    lemma_pow2_pos(149);
    lemma_large();
    let (e, f) = (p.value() * q.value(), r.value() * s.value());
    assert(-((2 * a) * u) <= e <= (2 * a) * u && -((2 * a) * u) <= f <= (2 * a) * u && (2 * a) * u
        <= 0x2000_0000_0000_0000 * (u * u)) by (nonlinear_arith)
        requires
            -a <= p.value() <= a,
            -(2 * u) <= q.value() <= 2 * u,
            -a <= r.value() <= a,
            -(2 * u) <= s.value() <= 2 * u,
            e == p.value() * q.value(),
            f == r.value() * s.value(),
            0 <= a <= 0x1000_0000_0000_0000 * u,
            u > 0,
    ;
    assert(0 <= u * u) by (nonlinear_arith);
    lemma_reached(e, u);
    lemma_reached(f, u);
    lemma_mul(c, p, q);
    lemma_mul(c, r, s);
    let (g, h) = (p.mul(c, q), r.mul(c, s));
    lemma_near(g, e, u);
    lemma_near(h, f, u);
    let (gu, hu) = (g.value() * u, h.value() * u);
    let w = 2 * a + 0x2000_0000_0000;
    assert(0x40_0000 * apart(gu, e) <= w * u && 0x40_0000 * apart(hu, f) <= w * u) by (nonlinear_arith)
        requires
            0x40_0000 * apart(gu, e) <= apart(e, 0) + 0x2000_0000_0000 * u,
            0x40_0000 * apart(hu, f) <= apart(f, 0) + 0x2000_0000_0000 * u,
            apart(e, 0) <= (2 * a) * u,
            apart(f, 0) <= (2 * a) * u,
            w == 2 * a + 0x2000_0000_0000,
    ;
    // How large the two products are.
    let m = 3 * a + 0x800_0000;
    assert(-m <= g.value() <= m && -m <= h.value() <= m) by (nonlinear_arith)
        requires
            0x40_0000 * apart(gu, e) <= w * u,
            0x40_0000 * apart(hu, f) <= w * u,
            -((2 * a) * u) <= e <= (2 * a) * u,
            -((2 * a) * u) <= f <= (2 * a) * u,
            gu == g.value() * u,
            hu == h.value() * u,
            w == 2 * a + 0x2000_0000_0000,
            m == 3 * a + 0x800_0000,
            a >= 0,
            u > 0,
    {
        assert(0x40_0000 * m >= 0x40_0000 * (2 * a) + w);
        assert(0x40_0000 * gu <= (0x40_0000 * (2 * a) + w) * u);
        assert(-(0x40_0000 * gu) <= (0x40_0000 * (2 * a) + w) * u);
        assert(0x40_0000 * hu <= (0x40_0000 * (2 * a) + w) * u);
        assert(-(0x40_0000 * hu) <= (0x40_0000 * (2 * a) + w) * u);
        assert((0x40_0000 * (2 * a) + w) * u <= (0x40_0000 * m) * u);
    }
    lemma_reached(g.value() - h.value(), 1);
    lemma_reached(g.value() + h.value(), 1);
    lemma_sub(c, g, h);
    lemma_add(c, g, h);
    let (x, y) = (g.sub(c, h), g.add(c, h));
    lemma_near(x, g.value() - h.value(), 1);
    lemma_near(y, g.value() + h.value(), 1);
    lemma_two_errors(x.value(), g.value(), h.value(), e, f, a, w, k, u);
    assert((-h.value()) * u == -hu) by (nonlinear_arith)
        requires
            hu == h.value() * u,
    ;
    lemma_two_errors(y.value(), g.value(), -h.value(), e, -f, a, w, k, u);
}

/// One is large.
proof fn lemma_large()
    ensures
        one() >= 0x1_0000_0000_0000_0000_0000_0000_0000_0000,
{
    lemma_pow2_adds(64, 64);
    lemma2_to64();
    lemma_pow2_strictly_increases(128, 149);
}

proof fn lemma_two_errors(x: int, g: int, h: int, e: int, f: int, a: int, w: int, k: int, u: int)
    requires
        0x40_0000 * apart(x, g - h) <= apart(g - h, 0) + 0x2000_0000_0000,
        0x40_0000 * apart(g * u, e) <= w * u,
        0x40_0000 * apart(h * u, f) <= w * u,
        apart(e, 0) <= (2 * a) * u,
        apart(f, 0) <= (2 * a) * u,
        w == 2 * a + 0x2000_0000_0000,
        0x40_0000 * k >= 10 * a + 0x8000_0000_0000,
        a >= 0,
        u > 0,
    ensures
        apart(x * u, e - f) <= k * u,
{
    let (gu, hu, xu) = (g * u, h * u, x * u);
    let z = g - h;
    assert(z * u == gu - hu && apart(z * u, 0) == apart(z, 0) * u && apart(xu, z * u) == apart(x, z) * u) by (nonlinear_arith)
        requires
            z == g - h,
            gu == g * u,
            hu == h * u,
            xu == x * u,
            u > 0,
    ;
    let t = apart(x, z);
    let v = apart(z, 0);
    assert((0x40_0000 * t) * u <= (v + 0x2000_0000_0000) * u) by (nonlinear_arith)
        requires
            0x40_0000 * t <= v + 0x2000_0000_0000,
            u > 0,
    ;
    assert((0x40_0000 * t) * u == 0x40_0000 * (t * u) && (v + 0x2000_0000_0000) * u == v * u + 0x2000_0000_0000 * u)
        by (nonlinear_arith);
    let (au, wu, ku) = (a * u, w * u, k * u);
    assert((2 * a) * u == 2 * au && wu == 2 * au + 0x2000_0000_0000 * u && 0x40_0000 * ku >= 10 * au + 0x8000_0000_0000 * u)
        by (nonlinear_arith)
        requires
            au == a * u,
            wu == w * u,
            ku == k * u,
            w == 2 * a + 0x2000_0000_0000,
            0x40_0000 * k >= 10 * a + 0x8000_0000_0000,
            u > 0,
    ;
    assert(au >= 0) by (nonlinear_arith)
        requires
            au == a * u,
            a >= 0,
            u > 0,
    ;
    // 2^22 times the distance: that of the difference and those of the products.
    assert(0x40_0000 * apart(xu, gu - hu) <= apart(gu - hu, 0) + 0x2000_0000_0000 * u);
    assert(0x40_0000 * apart(gu - hu, e - f) <= 2 * wu);
    assert(apart(e - f, 0) <= 4 * au);
    assert(apart(gu - hu, 0) <= 4 * au + wu);
}

/// A product of complex numbers, rounded.
proof fn lemma_turned<K: Fn(Op, Width, u64, u64) -> u64>(c: &Calc<K>, v: Cpx, w: Cpx, a: int, k: int)
    requires
        rounds(c),
        numeric(v),
        numeric(w),
        within(val(v), a),
        within(val(w), 2 * one()),
        a <= 0x1000_0000_0000_0000 * one(),
        0x40_0000 * k >= 10 * a + 0x8000_0000_0000,
    ensures
        numeric(turned(c, v, w)),
        within(val(turned(c, v, w)).scaled(one()).less(val(v).times(val(w))), 2 * (k * one())),
{
    lemma_parts(val(v), a);
    lemma_parts(val(w), 2 * one());
    lemma_two_products(c, v.re, w.re, v.im, w.im, a, k);
    lemma_two_products(c, v.re, w.im, v.im, w.re, a, k);
    lemma_of_parts(val(turned(c, v, w)).scaled(one()).less(val(v).times(val(w))), k * one());
}

/// A sum and a difference of complex numbers, rounded.
proof fn lemma_crossed<K: Fn(Op, Width, u64, u64) -> u64>(c: &Calc<K>, x: Cpx, y: Cpx, a: int, k: int)
    requires
        rounds(c),
        numeric(x),
        numeric(y),
        within(val(x), a),
        within(val(y), a),
        a <= 0x1000_0000_0000_0000 * one(),
        0x40_0000 * k >= 2 * a + 0x2000_0000_0000,
    ensures
        numeric(crossed_sum(c, x, y)),
        numeric(crossed_difference(c, x, y)),
        within(val(crossed_sum(c, x, y)).less(val(x).plus(val(y))), 2 * k),
        within(val(crossed_difference(c, x, y)).less(val(x).less(val(y))), 2 * k),
{
    lemma_parts(val(x), a);
    lemma_parts(val(y), a);
    lemma_pow2_pos(149);
    let (p, q) = (crossed_sum(c, x, y), crossed_difference(c, x, y));
    lemma_one_crossed(c, x.re, y.re, a, k);
    lemma_one_crossed(c, x.im, y.im, a, k);
    lemma_of_parts(val(p).less(val(x).plus(val(y))), k);
    lemma_of_parts(val(q).less(val(x).less(val(y))), k);
}

proof fn lemma_one_crossed<K: Fn(Op, Width, u64, u64) -> u64>(c: &Calc<K>, x: F32, y: F32, a: int, k: int)
    requires
        rounds(c),
        x.finite(),
        y.finite(),
        apart(x.value(), 0) <= a,
        apart(y.value(), 0) <= a,
        a <= 0x1000_0000_0000_0000 * one(),
        0x40_0000 * k >= 2 * a + 0x2000_0000_0000,
    ensures
        x.add(c, y).finite(),
        x.sub(c, y).finite(),
        apart(x.add(c, y).value(), x.value() + y.value()) <= k,
        apart(x.sub(c, y).value(), x.value() - y.value()) <= k,
{
    lemma_pow2_pos(149);
    lemma_reached(x.value() + y.value(), 1);
    lemma_reached(x.value() - y.value(), 1);
    lemma_add(c, x, y);
    lemma_sub(c, x, y);
    lemma_near(x.add(c, y), x.value() + y.value(), 1);
    lemma_near(x.sub(c, y), x.value() - y.value(), 1);
}

// -------------------------------------------------------------------- roots

/// `root(k)` stands for the `k`-th power of a 2^bits-th root of unity, in units of `one()`:
/// the first power is one, they repeat after 2^bits steps and change sign after half as
/// many, and sizes and products are off by `slack` at most.
#[verifier::opaque]
pub open spec fn roots_of_unity(root: spec_fn(int) -> Cx, bits: nat, slack: int) -> bool {
    &&& slack >= 0
    &&& root(0) == (Cx { re: one(), im: 0 })
    &&& forall|k: int| #[trigger] root(k + pow2(bits)) == root(k)
    &&& bits > 0 ==> forall|k: int| #[trigger] root(k + pow2((bits - 1) as nat)) == root(k).opposite()
    &&& forall|k: int| within(#[trigger] root(k), one() + slack)
    &&& forall|j: int, k: int|
        within((#[trigger] root(j)).times(#[trigger] root(k)).less(root(j + k).scaled(one())), slack * one())
}

proof fn lemma_root(root: spec_fn(int) -> Cx, bits: nat, slack: int, k: int)
    requires
        roots_of_unity(root, bits, slack),
    ensures
        slack >= 0,
        root(0) == (Cx { re: one(), im: 0 }),
        within(root(k), one() + slack),
        root(k + pow2(bits)) == root(k),
        bits > 0 ==> root(k + pow2((bits - 1) as nat)) == root(k).opposite(),
{
    reveal(roots_of_unity);
}

proof fn lemma_root_product(root: spec_fn(int) -> Cx, bits: nat, slack: int, j: int, k: int)
    requires
        roots_of_unity(root, bits, slack),
    ensures
        within(root(j).times(root(k)).less(root(j + k).scaled(one())), slack * one()),
{
    reveal(roots_of_unity);
}

/// Forward transforms turn one way, inverse ones the other.
pub open spec fn sense(inverse: bool) -> int {
    if inverse {
        1
    } else {
        -1
    }
}

/// The twiddle factors of every stage are numbers within `slack` of the roots.
pub open spec fn twiddles_follow<K: Fn(Op, Width, u64, u64) -> u64>(
    c: &Calc<K>,
    root: spec_fn(int) -> Cx,
    bits: nat,
    slack: int,
) -> bool {
    forall|s: nat, k: int, inverse: bool|
        1 <= s <= bits && 0 <= k < pow2((s - 1) as nat) ==> follows(
            #[trigger] twiddle(c, step_factor(c, pow2(s) as u64, inverse), k),
            root(sense(inverse) * (k * pow2((bits - s) as nat))),
            slack,
        )
}

pub open spec fn follows(w: Cpx, r: Cx, slack: int) -> bool {
    numeric(w) && within(val(w).less(r), slack)
}

proof fn lemma_period(root: spec_fn(int) -> Cx, n: int, a: int, m: int)
    requires
        forall|k: int| #[trigger] root(k + n) == root(k),
    ensures
        root(a + m * n) == root(a),
    decreases
        (if m < 0 {
            -m
        } else {
            m
        }),
{
    if m > 0 {
        lemma_period(root, n, a, m - 1);
        assert(a + m * n == (a + (m - 1) * n) + n) by (nonlinear_arith);
        assert(root((a + (m - 1) * n) + n) == root(a + (m - 1) * n));
    } else if m < 0 {
        lemma_period(root, n, a, m + 1);
        assert((a + m * n) + n == a + (m + 1) * n) by (nonlinear_arith);
        assert(root((a + m * n) + n) == root(a + m * n));
    } else {
        assert(0 * n == 0) by (nonlinear_arith);
    }
}

// ------------------------------------------------------------------- levels

/// Term `j` of a sum over every `st`-th value, from value `r` on.
pub open spec fn term(x: spec_fn(int) -> Cx, root: spec_fn(int) -> Cx, r: int, st: int, dir: int, k: int, j: int) -> Cx {
    x(r + j * st).times(root(dir * (j * k * st)))
}

/// Coefficient `k` of the transform of `m` values, every `st`-th one from value `r` on.
pub open spec fn level(x: spec_fn(int) -> Cx, root: spec_fn(int) -> Cx, r: int, st: int, dir: int, k: int, m: int) -> Cx {
    total(|j: int| term(x, root, r, st, dir, k, j), m)
}

spec fn odd_term(x: spec_fn(int) -> Cx, root: spec_fn(int) -> Cx, r: int, st: int, dir: int, k: int, i: int) -> Cx {
    x(r + st + i * (2 * st)).times(root(dir * ((2 * i + 1) * k * st)))
}

/// What every other term, from the second on, adds.
spec fn odd_part(x: spec_fn(int) -> Cx, root: spec_fn(int) -> Cx, r: int, st: int, dir: int, k: int, m: int) -> Cx {
    total(|i: int| odd_term(x, root, r, st, dir, k, i), m)
}

proof fn lemma_split(x: spec_fn(int) -> Cx, root: spec_fn(int) -> Cx, r: int, st: int, dir: int, k: int, h: int)
    requires
        h >= 0,
    ensures
        level(x, root, r, st, dir, k, 2 * h) == level(x, root, r, 2 * st, dir, k, h).plus(
            odd_part(x, root, r, st, dir, k, h),
        ),
{
    let f = |j: int| term(x, root, r, st, dir, k, j);
    lemma_total_halved(f, h);
    let (e, e2) = (|i: int| f(2 * i), |i: int| term(x, root, r, 2 * st, dir, k, i));
    let (o, o2) = (|i: int| f(2 * i + 1), |i: int| odd_term(x, root, r, st, dir, k, i));
    assert forall|i: int| 0 <= i < h implies #[trigger] e(i) == e2(i) by {
        assert((2 * i) * st == i * (2 * st) && (2 * i) * k * st == i * k * (2 * st)) by (nonlinear_arith);
    }
    assert forall|i: int| 0 <= i < h implies #[trigger] o(i) == o2(i) by {
        assert(r + (2 * i + 1) * st == r + st + i * (2 * st)) by (nonlinear_arith);
    }
    lemma_same_total(e, e2, h);
    lemma_same_total(o, o2, h);
}

/// Coefficients half a block further on: the even terms stay, the odd ones change sign.
#[verifier::rlimit(40)]
proof fn lemma_second_half(
    x: spec_fn(int) -> Cx,
    root: spec_fn(int) -> Cx,
    r: int,
    st: int,
    dir: int,
    k: int,
    h: int,
)
    requires
        dir == 1 || dir == -1,
        forall|k: int| #[trigger] root(k + 2 * (h * st)) == root(k),
        forall|k: int| #[trigger] root(k + h * st) == root(k).opposite(),
    ensures
        level(x, root, r, 2 * st, dir, k + h, h) == level(x, root, r, 2 * st, dir, k, h),
        odd_part(x, root, r, st, dir, k + h, h) == odd_part(x, root, r, st, dir, k, h).scaled(-1),
{
    let n = 2 * (h * st);
    let (e, e2) = (|i: int| term(x, root, r, 2 * st, dir, k + h, i), |i: int| term(x, root, r, 2 * st, dir, k, i));
    assert forall|i: int| 0 <= i < h implies #[trigger] e(i) == e2(i) by {
        let a = dir * (i * k * (2 * st));
        let (ik, ih) = (i * k, i * h);
        assert(i * (k + h) == ik + ih) by (nonlinear_arith)
            requires
                ik == i * k,
                ih == i * h,
        ;
        assert((ik + ih) * (2 * st) == ik * (2 * st) + i * n) by (nonlinear_arith)
            requires
                ih == i * h,
                n == 2 * (h * st),
        ;
        let (y, z) = (ik * (2 * st), i * n);
        assert(dir * (y + z) == dir * y + (dir * i) * n) by (nonlinear_arith)
            requires
                z == i * n,
        ;
        lemma_period(root, n, a, dir * i);
    }
    lemma_same_total(e, e2, h);
    let (o, o2) = (|i: int| odd_term(x, root, r, st, dir, k + h, i), |i: int| odd_term(x, root, r, st, dir, k, i));
    let o3 = |i: int| o2(i).scaled(-1);
    assert forall|i: int| 0 <= i < h implies #[trigger] o(i) == o3(i) by {
        let a = dir * ((2 * i + 1) * k * st);
        let m = if dir == 1 {
            i
        } else {
            -i - 1
        };
        assert(dir * ((2 * i + 1) * (k + h) * st) == (a + m * n) + h * st) by (nonlinear_arith)
            requires
                a == dir * ((2 * i + 1) * k * st),
                n == 2 * (h * st),
                (dir == 1 && m == i) || (dir == -1 && m == -i - 1),
        ;
        lemma_period(root, n, a, m);
        assert(root((a + m * n) + h * st) == root(a + m * n).opposite());
        let (v, w) = (x(r + st + i * (2 * st)), root(a));
        assert(v.re * (-w.re) - v.im * (-w.im) == (v.re * w.re - v.im * w.im) * -1 && v.re * (-w.im) + v.im * (-w.re)
            == (v.re * w.im + v.im * w.re) * -1) by (nonlinear_arith);
    }
    lemma_same_total(o, o3, h);
    lemma_total_scaled(o2, -1, h);
}

/// Turning a sum over every other value by a root gives the odd part, nearly.
#[verifier::rlimit(40)]
proof fn lemma_turned_sum(
    x: spec_fn(int) -> Cx,
    root: spec_fn(int) -> Cx,
    bits: nat,
    slack: int,
    r: int,
    st: int,
    dir: int,
    k: int,
    h: int,
    a: int,
)
    requires
        roots_of_unity(root, bits, slack),
        h >= 0,
        a >= 0,
        forall|i: int| within(#[trigger] x(i), a),
    ensures
        within(
            level(x, root, r + st, 2 * st, dir, k, h).times(root(dir * (k * st))).less(
                odd_part(x, root, r, st, dir, k, h).scaled(one()),
            ),
            h * (a * (slack * one())),
        ),
{
    let u = one();
    lemma_pow2_pos(149);
    let w = root(dir * (k * st));
    lemma_root(root, bits, slack, 0);
    let f = |i: int| term(x, root, r + st, 2 * st, dir, k, i);
    let g = |i: int| odd_term(x, root, r, st, dir, k, i);
    let (fw, gu) = (|i: int| f(i).times(w), |i: int| g(i).scaled(u));
    lemma_total_by(f, w, h);
    lemma_total_scaled(g, u, h);
    lemma_total_of_sums(fw, gu, h);
    let diff = |i: int| fw(i).less(gu(i));
    assert(slack * u >= 0 && a * (slack * u) >= 0) by (nonlinear_arith)
        requires
            slack >= 0,
            u > 0,
            a >= 0,
    ;
    assert forall|i: int| 0 <= i < h implies within(#[trigger] diff(i), a * (slack * u)) by {
        let v = x(r + st + i * (2 * st));
        let p = dir * (i * k * (2 * st));
        let q = dir * (k * st);
        assert(p + q == dir * ((2 * i + 1) * k * st)) by (nonlinear_arith)
            requires
                p == dir * (i * k * (2 * st)),
                q == dir * (k * st),
        ;
        let y = root(p).times(root(q)).less(root(p + q).scaled(u));
        lemma_root_product(root, bits, slack, p, q);
        lemma_product_within(v, a, y, slack * u);
        lemma_three(v, root(p), root(q), root(p + q), u);
    }
    lemma_total_within(diff, h, a * (slack * u));
}

/// `(v p) q - (v t) u` is `v (p q - t u)`.
proof fn lemma_three(v: Cx, p: Cx, q: Cx, t: Cx, u: int)
    ensures
        v.times(p).times(q).less(v.times(t).scaled(u)) == v.times(p.times(q).less(t.scaled(u))),
{
    lemma_times_regrouped(v, p, q);
    lemma_times_scaled(v, u, t);
    lemma_times_less(p.times(q), t.scaled(u), v);
}

/// How large a coefficient can be.
pub(crate) proof fn lemma_level_size(
    x: spec_fn(int) -> Cx,
    root: spec_fn(int) -> Cx,
    bits: nat,
    slack: int,
    r: int,
    st: int,
    dir: int,
    k: int,
    m: int,
    a: int,
)
    requires
        roots_of_unity(root, bits, slack),
        m >= 0,
        a >= 0,
        forall|i: int| within(#[trigger] x(i), a),
    ensures
        within(level(x, root, r, st, dir, k, m), m * (a * (one() + slack))),
{
    lemma_pow2_pos(149);
    lemma_root(root, bits, slack, 0);
    let f = |j: int| term(x, root, r, st, dir, k, j);
    let b = a * (one() + slack);
    assert(b >= 0) by (nonlinear_arith)
        requires
            b == a * (one() + slack),
            a >= 0,
            slack >= 0,
            one() > 0,
    ;
    assert forall|j: int| 0 <= j < m implies within(#[trigger] f(j), b) by {
        lemma_root(root, bits, slack, dir * (j * k * st));
        lemma_product_within(x(r + j * st), a, root(dir * (j * k * st)), one() + slack);
    }
    lemma_total_within(f, m, b);
}

// ------------------------------------------------------------- butterflies

/// A value near `so`, turned by a factor that follows the root `rho`, is near `sodd`.
#[verifier::rlimit(40)]
proof fn lemma_turned_near<K: Fn(Op, Width, u64, u64) -> u64>(
    c: &Calc<K>,
    vo: Cpx,
    w: Cpx,
    so: Cx,
    sodd: Cx,
    rho: Cx,
    a: int,
    e: int,
    b: int,
    g: int,
    slack: int,
    k: int,
)
    requires
        rounds(c),
        numeric(vo),
        within(val(vo), a),
        within(val(vo).scaled(one()).less(so), e),
        within(so, b),
        follows(w, rho, slack),
        within(rho, one() + slack),
        within(so.times(rho).less(sodd.scaled(one())), g),
        0 <= 2 * slack <= one(),
        4 * a <= 0x1000_0000_0000_0000 * one(),
        0x40_0000 * k >= 10 * a + 0x8000_0000_0000,
    ensures
        numeric(turned(c, vo, w)),
        within(val(turned(c, vo, w)), 2 * a + 2 * k),
        within(
            val(turned(c, vo, w)).scaled(one() * one()).less(sodd.scaled(one())),
            2 * (k * (one() * one())) + e * (one() + 2 * slack) + b * slack + g,
        ),
{
    let u = one();
    lemma_pow2_pos(149);
    let t = turned(c, vo, w);
    let vw = val(w);
    // The factor.
    lemma_sum_size(vw.less(rho), slack, rho, u + slack);
    assert(vw.less(rho).plus(rho) == vw);
    lemma_wider(vw, slack + (u + slack), 2 * u);
    lemma_turned(c, vo, w, a, k);
    let x0 = val(t).scaled(u).less(val(vo).times(vw));
    // How large the turned value is.
    lemma_product_within(val(vo), a, vw, 2 * u);
    lemma_sum_size(x0, 2 * (k * u), val(vo).times(vw), a * (2 * u));
    assert(x0.plus(val(vo).times(vw)) == val(t).scaled(u));
    let at = 2 * a + 2 * k;
    assert(2 * (k * u) + a * (2 * u) == at * u) by (nonlinear_arith)
        requires
            at == 2 * a + 2 * k,
    ;
    lemma_unscaled_within(val(t), at, u);
    // From the turned value to the odd part.
    lemma_times_less(val(vo).scaled(u), so, vw);
    lemma_times_scaled(val(vo), u, vw);
    lemma_times_less(vw, rho, so);
    lemma_scaled_less(val(t).scaled(u), val(vo).times(vw), u);
    lemma_scaled_twice(val(t), u, u);
    let x1 = x0.scaled(u);
    let x2 = val(vo).scaled(u).less(so).times(vw);
    let x3 = so.times(vw.less(rho));
    let x4 = so.times(rho).less(sodd.scaled(u));
    let odd = val(t).scaled(u * u).less(sodd.scaled(u));
    assert(odd == x1.plus(x2).plus(x3).plus(x4));
    lemma_scaled_within(x0, 2 * (k * u), u);
    lemma_product_within(val(vo).scaled(u).less(so), e, vw, u + 2 * slack);
    lemma_product_within(so, b, vw.less(rho), slack);
    lemma_sum_size(x1, (2 * (k * u)) * u, x2, e * (u + 2 * slack));
    lemma_sum_size(x1.plus(x2), (2 * (k * u)) * u + e * (u + 2 * slack), x3, b * slack);
    lemma_sum_size(x1.plus(x2).plus(x3), (2 * (k * u)) * u + e * (u + 2 * slack) + b * slack, x4, g);
    assert((2 * (k * u)) * u == 2 * (k * (u * u))) by (nonlinear_arith);
}

/// From a rounded sum `p` of two values to the sum of what they are near; with `sign` -1,
/// a difference.
#[verifier::rlimit(40)]
proof fn lemma_joined(p: Cx, v: Cx, t: Cx, se: Cx, sodd: Cx, sign: int, u: int, r: int, e: int, f: int, e2: int)
    requires
        u > 0,
        e2 >= 0,
        within(p.less(v.plus(t.scaled(sign))), r),
        within(v.scaled(u).less(se), e),
        within(t.scaled(u * u).less(sodd.scaled(u)).scaled(sign), f),
        r * (u * u) + e * u + f <= e2 * u,
    ensures
        within(p.scaled(u).less(se.plus(sodd.scaled(sign))), e2),
{
    let uu = u * u;
    assert(uu > 0) by (nonlinear_arith)
        requires
            uu == u * u,
            u > 0,
    ;
    let y = p.less(v.plus(t.scaled(sign)));
    let ev = v.scaled(u).less(se);
    let odd = t.scaled(uu).less(sodd.scaled(u)).scaled(sign);
    lemma_scaled_within(y, r, uu);
    lemma_scaled_within(ev, e, u);
    lemma_sum_size(y.scaled(uu), r * uu, ev.scaled(u), e * u);
    lemma_sum_size(y.scaled(uu).plus(ev.scaled(u)), r * uu + e * u, odd, f);
    let d = p.scaled(u).less(se.plus(sodd.scaled(sign)));
    assert(d.scaled(u) == y.scaled(uu).plus(ev.scaled(u)).plus(odd)) by {
        lemma_scaled_less(p, v.plus(t.scaled(sign)), uu);
        lemma_scaled_less(v, t.scaled(sign), uu);
        lemma_scaled_less(v.scaled(u), se, u);
        lemma_scaled_twice(v, u, u);
        lemma_scaled_less(p.scaled(u), se.plus(sodd.scaled(sign)), u);
        lemma_scaled_twice(p, u, u);
        lemma_scaled_less(se, sodd.scaled(sign), u);
        lemma_scaled_less(t.scaled(uu), sodd.scaled(u), sign);
        lemma_scaled_twice(t, sign, uu);
        lemma_scaled_twice(t, uu, sign);
        lemma_scaled_twice(sodd, sign, u);
        lemma_scaled_twice(sodd, u, sign);
        assert(sign * uu == uu * sign && sign * u == u * sign) by (nonlinear_arith);
    }
    lemma_wider(d.scaled(u), r * uu + e * u + f, e2 * u);
    lemma_unscaled_within(d, e2, u);
}

/// What one butterfly makes of two values near `se` and `so`, where `sodd` is near `so`
/// turned by the root `rho` that the factor `w` follows.
#[verifier::rlimit(40)]
proof fn lemma_butterfly<K: Fn(Op, Width, u64, u64) -> u64>(
    c: &Calc<K>,
    ve: Cpx,
    vo: Cpx,
    w: Cpx,
    se: Cx,
    so: Cx,
    sodd: Cx,
    rho: Cx,
    a: int,
    e: int,
    b: int,
    g: int,
    slack: int,
    k: int,
    e2: int,
)
    requires
        rounds(c),
        numeric(ve),
        numeric(vo),
        within(val(ve), a),
        within(val(vo), a),
        within(val(ve).scaled(one()).less(se), e),
        within(val(vo).scaled(one()).less(so), e),
        within(so, b),
        follows(w, rho, slack),
        within(rho, one() + slack),
        within(so.times(rho).less(sodd.scaled(one())), g),
        0 <= 2 * slack <= one(),
        4 * a <= 0x1000_0000_0000_0000 * one(),
        0x40_0000 * k >= 10 * a + 0x8000_0000_0000,
        2 * k <= a + 0x2000_0000_0000,
        e2 >= 0,
        e2 * one() >= e * one() + e * (one() + 2 * slack) + b * slack + g + 4 * (k * (one() * one())),
    ensures
        ({
            let t = turned(c, vo, w);
            let (p, q) = (crossed_sum(c, ve, t), crossed_difference(c, ve, t));
            &&& numeric(p)
            &&& numeric(q)
            &&& within(val(p).scaled(one()).less(se.plus(sodd)), e2)
            &&& within(val(q).scaled(one()).less(se.plus(sodd.scaled(-1))), e2)
        }),
{
    let u = one();
    lemma_pow2_pos(149);
    lemma_large();
    let t = turned(c, vo, w);
    lemma_turned_near(c, vo, w, so, sodd, rho, a, e, b, g, slack, k);
    let wide = 3 * a + 0x2000_0000_0000;
    lemma_wider(val(t), 2 * a + 2 * k, wide);
    lemma_wider(val(ve), a, wide);
    lemma_crossed(c, ve, t, wide, k);
    let f = 2 * (k * (u * u)) + e * (u + 2 * slack) + b * slack + g;
    let odd = val(t).scaled(u * u).less(sodd.scaled(u));
    assert(odd.scaled(1) == odd && val(t).scaled(1) == val(t) && sodd.scaled(1) == sodd);
    lemma_nought_within(0);
    lemma_sum_size(nought(), 0, odd, f);
    assert(odd.scaled(-1) == nought().less(odd));
    assert(val(ve).plus(val(t).scaled(-1)) == val(ve).less(val(t)));
    assert((2 * k) * (u * u) == 2 * (k * (u * u))) by (nonlinear_arith);
    lemma_joined(val(crossed_sum(c, ve, t)), val(ve), val(t), se, sodd, 1, u, 2 * k, e, f, e2);
    lemma_joined(val(crossed_difference(c, ve, t)), val(ve), val(t), se, sodd, -1, u, 2 * k, e, f, e2);
}

// ------------------------------------------------------------------ stages

/// What rounding adds to one butterfly, for inputs no larger than `a`.
pub open spec fn rounding_slack(a: int) -> int {
    (30 * a + 0x8000_0000_0000) / 0x40_0000 + 1
}

/// What one stage adds per value, for inputs no larger than `a` and factors off by `slack`.
pub open spec fn stage_slack(a: int, slack: int) -> int {
    3 * (a * slack) + 4 * (one() * rounding_slack(a))
}

/// How far the values of stage `s` are off, times `one()`.
pub open spec fn off(a: int, slack: int, s: nat) -> int {
    (s * (s + 1)) * (pow2(s) * stage_slack(a, slack))
}

/// Inputs no larger than `a` neither overflow nor drown in rounding.
pub open spec fn moderate(a: int, slack: int, bits: nat) -> bool {
    &&& 0 <= a
    &&& 0 <= 2 * slack <= one()
    &&& bits * slack <= one()
    &&& (bits * (bits + 1)) * stage_slack(a, slack) <= a * one()
    &&& 12 * (pow2(bits) * a) <= 0x1000_0000_0000_0000 * one()
}

/// The values of a sequence; nought elsewhere.
pub open spec fn values(d: Seq<Cpx>) -> spec_fn(int) -> Cx {
    |i: int|
        if 0 <= i < d.len() {
            val(d[i])
        } else {
            nought()
        }
}

pub(crate) proof fn lemma_stages_len<K: Fn(Op, Width, u64, u64) -> u64>(c: &Calc<K>, d: Seq<Cpx>, n: nat, inverse: bool)
    ensures
        stages(c, d, n, inverse).len() == d.len(),
    decreases n,
{
    if n > 0 {
        lemma_stages_len(c, d, (n - 1) as nat, inverse);
    }
}

proof fn lemma_slack(a: int, slack: int)
    requires
        a >= 0,
        slack >= 0,
    ensures
        rounding_slack(a) >= 1,
        0x40_0000 * rounding_slack(a) >= 30 * a + 0x8000_0000_0000,
        stage_slack(a, slack) >= 0,
        stage_slack(a, slack) >= 4 * (one() * rounding_slack(a)),
{
    lemma_pow2_pos(149);
    assert(a * slack >= 0 && one() * rounding_slack(a) >= 0) by (nonlinear_arith)
        requires
            a >= 0,
            slack >= 0,
            one() > 0,
            rounding_slack(a) >= 1,
    ;
}

proof fn lemma_off_step(a: int, slack: int, s: nat, u: int, k0: int, hh: int, h: int, e: int, e2: int)
    requires
        a >= 0,
        u > 0,
        k0 >= 0,
        h >= 0,
        0 <= slack <= u,
        s * slack <= u,
        hh == 3 * (a * slack) + 4 * (u * k0),
        e == (s * (s + 1)) * (h * hh),
        e2 == ((s + 1) * (s + 2)) * ((2 * h) * hh),
    ensures
        e2 * u >= e * u + e * (u + 2 * slack) + (h * (a * (u + slack))) * slack + h * (a * (slack * u)) + 4 * ((h * k0) * (u
            * u)),
{
    let x = h * hh;
    let m = a * slack;
    let uk = u * k0;
    assert(m >= 0 && uk >= 0) by (nonlinear_arith)
        requires
            m == a * slack,
            uk == u * k0,
            a >= 0,
            slack >= 0,
            u > 0,
            k0 >= 0,
    ;
    // What one stage adds.
    assert((h * (a * (u + slack))) * slack == h * (m * u) + h * (m * slack)) by (nonlinear_arith)
        requires
            m == a * slack,
    ;
    assert(h * (a * (slack * u)) == h * (m * u)) by (nonlinear_arith)
        requires
            m == a * slack,
    ;
    assert((h * k0) * (u * u) == h * (uk * u)) by (nonlinear_arith)
        requires
            uk == u * k0,
    ;
    assert(h * (m * slack) <= h * (m * u)) by (nonlinear_arith)
        requires
            h >= 0,
            m >= 0,
            slack <= u,
    {
        assert(m * slack <= m * u);
    }
    assert(x * u == 3 * (h * (m * u)) + 4 * (h * (uk * u))) by (nonlinear_arith)
        requires
            x == h * hh,
            hh == 3 * m + 4 * uk,
    ;
    // What the stages before have grown by.
    let t = s + 1;
    assert(x >= 0) by (nonlinear_arith)
        requires
            x == h * hh,
            h >= 0,
            hh == 3 * m + 4 * uk,
            m >= 0,
            uk >= 0,
    ;
    let tx = t * x;
    assert(tx >= x) by (nonlinear_arith)
        requires
            tx == t * x,
            t >= 1,
            x >= 0,
    ;
    assert(e == s * tx) by (nonlinear_arith)
        requires
            e == (s * (s + 1)) * x,
            t == s + 1,
            tx == t * x,
    ;
    assert(e2 == 2 * e + 4 * tx) by (nonlinear_arith)
        requires
            e2 == ((s + 1) * (s + 2)) * ((2 * h) * hh),
            x == h * hh,
            t == s + 1,
            tx == t * x,
            e == s * tx,
    {
        assert((2 * h) * hh == 2 * x);
        assert(((s + 1) * (s + 2)) * (2 * x) == 2 * ((s + 2) * tx));
    }
    assert(e * slack <= tx * u) by (nonlinear_arith)
        requires
            e == s * tx,
            s * slack <= u,
            tx >= 0,
    {
        assert(e * slack == (s * slack) * tx);
    }
    assert(e2 * u == 2 * (e * u) + 4 * (tx * u)) by (nonlinear_arith)
        requires
            e2 == 2 * e + 4 * tx,
    ;
    assert(e * (u + 2 * slack) == e * u + 2 * (e * slack)) by (nonlinear_arith);
    assert(x * u <= tx * u) by (nonlinear_arith)
        requires
            x <= tx,
            u > 0,
    ;
    assert(tx * u >= 0) by (nonlinear_arith)
        requires
            tx >= 0,
            u > 0,
    ;
}

/// A value off by `e` at most, of a coefficient of the sum over `h` values, is no larger
/// than three times their sum can be.
proof fn lemma_value_size(v: Cx, sum: Cx, h: int, a: int, slack: int, s: nat, bits: nat)
    requires
        h == pow2(s),
        s <= bits,
        moderate(a, slack, bits),
        within(sum, h * (a * (one() + slack))),
        within(v.scaled(one()).less(sum), off(a, slack, s)),
    ensures
        within(v, 3 * (h * a)),
{
    let u = one();
    lemma_pow2_pos(149);
    lemma_pow2_pos(s);
    lemma_slack(a, slack);
    let hh = stage_slack(a, slack);
    let e = off(a, slack, s);
    lemma_sum_size(v.scaled(u).less(sum), e, sum, h * (a * (u + slack)));
    assert(v.scaled(u).less(sum).plus(sum) == v.scaled(u));
    assert((s * (s + 1)) * hh <= a * u) by (nonlinear_arith)
        requires
            (bits * (bits + 1)) * hh <= a * u,
            0 <= s <= bits,
            hh >= 0,
    {
        assert(s * (s + 1) <= bits * (bits + 1));
    }
    assert(e <= h * (a * u)) by (nonlinear_arith)
        requires
            e == (s * (s + 1)) * (h * hh),
            (s * (s + 1)) * hh <= a * u,
            h >= 0,
    {
        assert(e == h * ((s * (s + 1)) * hh));
    }
    assert(e + h * (a * (u + slack)) <= (3 * (h * a)) * u) by (nonlinear_arith)
        requires
            e <= h * (a * u),
            h >= 0,
            a >= 0,
            slack <= u,
    {
        assert(a * (u + slack) <= 2 * (a * u)) by (nonlinear_arith)
            requires
                slack <= u,
                a >= 0,
        ;
        assert(h * (a * (u + slack)) <= h * (2 * (a * u)));
        assert((3 * (h * a)) * u == 3 * (h * (a * u)));
    }
    let b = 3 * (h * a);
    assert(b >= 0) by (nonlinear_arith)
        requires
            b == 3 * (h * a),
            h >= 0,
            a >= 0,
    ;
    lemma_wider(v.scaled(u), e + h * (a * (u + slack)), b * u);
    lemma_unscaled_within(v, b, u);
}

/// The values of stage `s` are near the coefficients of sums over 2^s inputs.
#[verifier::rlimit(30)]
pub(crate) proof fn lemma_level<K: Fn(Op, Width, u64, u64) -> u64>(
    c: &Calc<K>,
    d: Seq<Cpx>,
    root: spec_fn(int) -> Cx,
    bits: nat,
    slack: int,
    a: int,
    inverse: bool,
    s: nat,
    b: int,
    k: int,
)
    requires
        rounds(c),
        roots_of_unity(root, bits, slack),
        twiddles_follow(c, root, bits, slack),
        d.len() == pow2(bits),
        forall|i: int| 0 <= i < d.len() ==> numeric(#[trigger] d[i]) && within(val(d[i]), a),
        moderate(a, slack, bits),
        s <= bits,
        0 <= b < pow2((bits - s) as nat),
        0 <= k < pow2(s),
    ensures
        ({
            let v = stages(c, reordered(d, bits), s, inverse)[b * pow2(s) + k];
            &&& numeric(v)
            &&& within(
                val(v).scaled(one()).less(
                    level(
                        values(d),
                        root,
                        reversed(b, (bits - s) as nat),
                        pow2((bits - s) as nat) as int,
                        sense(inverse),
                        k,
                        pow2(s) as int,
                    ),
                ),
                off(a, slack, s),
            )
        }),
    decreases s,
{
    let x = values(d);
    let dir = sense(inverse);
    let u = one();
    lemma_pow2_pos(149);
    lemma_nought_within(a);
    assert forall|i: int| within(#[trigger] x(i), a) by {}
    if s == 0 {
        lemma2_to64();
        assert(b * pow2(0) + k == b) by (nonlinear_arith)
            requires
                pow2(0) == 1,
                k == 0,
        ;
        lemma_reversed_bound(b, bits);
        let (r, st) = (reversed(b, bits), pow2(bits) as int);
        let f = |j: int| term(x, root, r, st, dir, k, j);
        assert(total(f, 1) == total(f, 0).plus(f(0)));
        lemma_root(root, bits, slack, 0);
        assert(0 * st == 0 && dir * (0 * k * st) == 0) by (nonlinear_arith);
        assert(f(0) == x(r).times(root(0)));
        let v = x(r);
        assert(v.re * u - v.im * 0 == v.re * u && v.re * 0 + v.im * u == v.im * u) by (nonlinear_arith);
        assert(val(d[r]).scaled(u).less(level(x, root, r, st, dir, k, 1)) == nought());
        assert(off(a, slack, 0) == 0) by (nonlinear_arith)
            requires
                off(a, slack, 0) == (0 * (0 + 1)) * (pow2(0) * stage_slack(a, slack)),
        ;
        lemma_nought_within(0);
    } else {
        let t = (s - 1) as nat;
        let h = pow2(t) as int;
        let st = pow2((bits - s) as nat) as int;
        lemma_pow2_unfold(s);
        lemma_pow2_unfold((bits - t) as nat);
        lemma_pow2_pos(t);
        let r = reversed(b, (bits - s) as nat);
        let k1 = if k < h {
            k
        } else {
            k - h
        };
        assert((2 * b) / 2 == b && (2 * b) % 2 == 0 && (2 * b + 1) / 2 == b && (2 * b + 1) % 2 == 1);
        assert(0 * st == 0 && 1 * st == st);
        assert(reversed(2 * b, (bits - t) as nat) == r);
        assert(reversed(2 * b + 1, (bits - t) as nat) == r + st);
        lemma_level(c, d, root, bits, slack, a, inverse, t, 2 * b, k1);
        lemma_level(c, d, root, bits, slack, a, inverse, t, 2 * b + 1, k1);
        let prev = stages(c, reordered(d, bits), t, inverse);
        lemma_stages_len(c, reordered(d, bits), t, inverse);
        let (je, jo) = ((2 * b) * h + k1, (2 * b + 1) * h + k1);
        let j = b * (2 * h) + k;
        lemma_place(b, k, h, st, pow2(bits) as int, bits, s);
        let (ve, vo) = (prev[je], prev[jo]);
        let w = twiddle(c, step_factor(c, pow2(s) as u64, inverse), k1);
        assert(stages(c, reordered(d, bits), s, inverse)[j] == merged_value(
            c,
            prev,
            2 * h,
            step_factor(c, pow2(s) as u64, inverse),
            j,
        ));
        let (se, so) = (level(x, root, r, 2 * st, dir, k1, h), level(x, root, r + st, 2 * st, dir, k1, h));
        let sodd = odd_part(x, root, r, st, dir, k1, h);
        lemma_merge(c, root, bits, slack, a, s, x, r, st, dir, k1, h, ve, vo, w, se, so, sodd);
        lemma_split(x, root, r, st, dir, k, h);
        if k >= h {
            assert forall|q: int| #[trigger] root(q + 2 * (h * st)) == root(q) by {
                lemma_root(root, bits, slack, q);
            }
            assert forall|q: int| #[trigger] root(q + h * st) == root(q).opposite() by {
                lemma_root(root, bits, slack, q);
            }
            lemma_second_half(x, root, r, st, dir, k1, h);
        }
    }
}

/// Where the values that a butterfly meets stand.
pub(crate) proof fn lemma_place(b: int, k: int, h: int, st: int, n: int, bits: nat, s: nat)
    requires
        1 <= s <= bits,
        h == pow2((s - 1) as nat),
        st == pow2((bits - s) as nat),
        n == pow2(bits),
        0 <= b < st,
        0 <= k < 2 * h,
    ensures
        n == 2 * (h * st),
        pow2((bits - 1) as nat) == h * st,
        0 <= b * (2 * h) + k < n,
        (b * (2 * h) + k) % (2 * h) == k,
        k < h ==> b * (2 * h) + k == (2 * b) * h + k && b * (2 * h) + k + h == (2 * b + 1) * h + k,
        k >= h ==> b * (2 * h) + k - h == (2 * b) * h + (k - h) && b * (2 * h) + k == (2 * b + 1) * h + (k - h),
{
    lemma_pow2_adds((s - 1) as nat, (bits - s) as nat);
    lemma_pow2_unfold(bits);
    assert(b * (2 * h) == (2 * b) * h && (2 * b + 1) * h == (2 * b) * h + h) by (nonlinear_arith);
    assert(0 <= b * (2 * h) && b * (2 * h) + 2 * h <= 2 * (h * st)) by (nonlinear_arith)
        requires
            0 <= b < st,
            h > 0,
    {
        assert((b + 1) * (2 * h) <= st * (2 * h));
    }
    assert((b * (2 * h) + k) % (2 * h) == k) by (nonlinear_arith)
        requires
            0 <= k < 2 * h,
    ;
}

/// One butterfly of stage `s`.
#[verifier::rlimit(40)]
proof fn lemma_merge<K: Fn(Op, Width, u64, u64) -> u64>(
    c: &Calc<K>,
    root: spec_fn(int) -> Cx,
    bits: nat,
    slack: int,
    a: int,
    s: nat,
    x: spec_fn(int) -> Cx,
    r: int,
    st: int,
    dir: int,
    k: int,
    h: int,
    ve: Cpx,
    vo: Cpx,
    w: Cpx,
    se: Cx,
    so: Cx,
    sodd: Cx,
)
    requires
        rounds(c),
        roots_of_unity(root, bits, slack),
        moderate(a, slack, bits),
        1 <= s <= bits,
        h == pow2((s - 1) as nat),
        forall|i: int| within(#[trigger] x(i), a),
        numeric(ve),
        numeric(vo),
        se == level(x, root, r, 2 * st, dir, k, h),
        so == level(x, root, r + st, 2 * st, dir, k, h),
        sodd == odd_part(x, root, r, st, dir, k, h),
        within(val(ve).scaled(one()).less(se), off(a, slack, (s - 1) as nat)),
        within(val(vo).scaled(one()).less(so), off(a, slack, (s - 1) as nat)),
        follows(w, root(dir * (k * st)), slack),
    ensures
        ({
            let t = turned(c, vo, w);
            let (p, q) = (crossed_sum(c, ve, t), crossed_difference(c, ve, t));
            &&& numeric(p)
            &&& numeric(q)
            &&& within(val(p).scaled(one()).less(se.plus(sodd)), off(a, slack, s))
            &&& within(val(q).scaled(one()).less(se.plus(sodd.scaled(-1))), off(a, slack, s))
        }),
{
    let u = one();
    let t = (s - 1) as nat;
    let k0 = rounding_slack(a);
    let hh = stage_slack(a, slack);
    lemma_pow2_pos(149);
    lemma_pow2_pos(t);
    lemma_pow2_unfold(s);
    lemma_slack(a, slack);
    lemma_level_size(x, root, bits, slack, r, 2 * st, dir, k, h, a);
    lemma_level_size(x, root, bits, slack, r + st, 2 * st, dir, k, h, a);
    lemma_value_size(val(ve), se, h, a, slack, t, bits);
    lemma_value_size(val(vo), so, h, a, slack, t, bits);
    lemma_turned_sum(x, root, bits, slack, r, st, dir, k, h, a);
    lemma_root(root, bits, slack, dir * (k * st));
    assert(t * slack <= u) by (nonlinear_arith)
        requires
            t <= bits,
            bits * slack <= u,
            slack >= 0,
    ;
    let (e, e2) = (off(a, slack, t), off(a, slack, s));
    lemma_off_step(a, slack, t, u, k0, hh, h, e, e2);
    assert(e2 >= 0) by (nonlinear_arith)
        requires
            e2 == (s * (s + 1)) * (pow2(s) * hh),
            s >= 0,
            hh >= 0,
    {
        assert(s * (s + 1) >= 0);
        assert(pow2(s) * hh >= 0);
    }
    let big = 3 * (h * a);
    let kk = h * k0;
    // The sizes suit the arithmetic.
    assert(8 * k0 <= a) by (nonlinear_arith)
        requires
            (bits * (bits + 1)) * hh <= a * u,
            hh >= 4 * (u * k0),
            bits >= 1,
            u > 0,
            k0 >= 1,
    {
        assert(bits * (bits + 1) >= 2);
        assert(hh >= 0);
        assert((bits * (bits + 1)) * hh >= 2 * hh);
        assert(8 * (u * k0) <= a * u);
    }
    assert(0x40_0000 * kk >= 10 * big + 0x8000_0000_0000 && 2 * kk <= big && big >= 0) by (nonlinear_arith)
        requires
            0x40_0000 * k0 >= 30 * a + 0x8000_0000_0000,
            8 * k0 <= a,
            k0 >= 1,
            big == 3 * (h * a),
            kk == h * k0,
            h >= 1,
    {
        assert(h * (0x40_0000 * k0) >= h * (30 * a + 0x8000_0000_0000));
        assert(h * (8 * k0) <= h * a);
    }
    assert(h <= pow2(bits)) by {
        if t < bits {
            lemma_pow2_strictly_increases(t, bits);
        }
    }
    assert(4 * big <= 12 * (pow2(bits) * a)) by (nonlinear_arith)
        requires
            big == 3 * (h * a),
            h <= pow2(bits),
            a >= 0,
    ;
    lemma_butterfly(
        c,
        ve,
        vo,
        w,
        se,
        so,
        sodd,
        root(dir * (k * st)),
        big,
        e,
        h * (a * (u + slack)),
        h * (a * (slack * u)),
        slack,
        kk,
        e2,
    );
}

// ------------------------------------------------------------ there and back

/// How often `m` must be taken to come half way round 2^bits steps, and the full rounds
/// made meanwhile.
proof fn lemma_half_way(m: int, bits: nat) -> (found: (int, int))
    requires
        m % (pow2(bits) as int) != 0,
    ensures
        bits > 0,
        found.0 >= 0,
        m * found.0 == pow2((bits - 1) as nat) + found.1 * pow2(bits),
    decreases bits,
{
    lemma2_to64();
    lemma_pow2_pos(bits);
    if bits == 0 {
        assert(m % 1 == 0);
        (0, 0)
    } else {
        let (n, p) = (pow2(bits) as int, pow2((bits - 1) as nat) as int);
        lemma_pow2_unfold(bits);
        lemma_pow2_pos((bits - 1) as nat);
        let q = m / 2;
        if m % 2 == 1 {
            assert(m * p == p + q * n) by (nonlinear_arith)
                requires
                    m == 2 * q + 1,
                    n == 2 * p,
            ;
            (p, q)
        } else {
            assert(q % p != 0) by {
                if q % p == 0 {
                    let z = q / p;
                    assert(q == p * z) by (nonlinear_arith)
                        requires
                            q % p == 0,
                            z == q / p,
                            p > 0,
                    ;
                    assert(m == n * z) by (nonlinear_arith)
                        requires
                            m == 2 * q,
                            q == p * z,
                            n == 2 * p,
                    ;
                    assert((n * z) % n == 0) by (nonlinear_arith)
                        requires
                            n > 0,
                    ;
                }
            }
            let (h, w) = lemma_half_way(q, (bits - 1) as nat);
            let o = pow2((bits - 2) as nat) as int;
            lemma_pow2_unfold((bits - 1) as nat);
            assert(m * h == p + w * n) by (nonlinear_arith)
                requires
                    m == 2 * q,
                    q * h == o + w * p,
                    n == 2 * p,
                    p == 2 * o,
            ;
            (h, w)
        }
    }
}

/// Powers of a root that is not one cancel out over a full round.
proof fn lemma_powers_cancel(root: spec_fn(int) -> Cx, bits: nat, slack: int, m: int)
    requires
        roots_of_unity(root, bits, slack),
        m % (pow2(bits) as int) != 0,
    ensures
        total(|k: int| root(m * k), pow2(bits) as int) == nought(),
{
    let n = pow2(bits) as int;
    let (h, q) = lemma_half_way(m, bits);
    let f = |k: int| root(m * k);
    assert forall|k: int| #[trigger] root(k + n) == root(k) by {
        lemma_root(root, bits, slack, k);
    }
    assert forall|k: int| #[trigger] f(k + n) == f(k) by {
        assert(m * (k + n) == m * k + m * n) by (nonlinear_arith);
        lemma_period(root, n, m * k, m);
    }
    lemma_total_shifted(f, n, h);
    let (g, o) = (|k: int| f(k + h), |k: int| f(k).scaled(-1));
    assert forall|k: int| 0 <= k < n implies #[trigger] g(k) == o(k) by {
        let p = pow2((bits - 1) as nat) as int;
        assert(m * (k + h) == (m * k + q * n) + p) by (nonlinear_arith)
            requires
                m * h == p + q * n,
        ;
        lemma_root(root, bits, slack, m * k + q * n);
        lemma_period(root, n, m * k, q);
    }
    lemma_same_total(g, o, n);
    lemma_total_scaled(f, -1, n);
}

/// A root's zeroth power, over a full round.
proof fn lemma_ones_add_up(f: spec_fn(int) -> Cx, n: int, u: int)
    requires
        n >= 0,
        forall|k: int| 0 <= k < n ==> #[trigger] f(k) == (Cx { re: u, im: 0 }),
    ensures
        total(f, n) == (Cx { re: n * u, im: 0 }),
    decreases n,
{
    if n > 0 {
        lemma_ones_add_up(f, n - 1, u);
        assert(f(n - 1) == (Cx { re: u, im: 0 }));
        assert((n - 1) * u + u == n * u) by (nonlinear_arith);
    } else {
        assert(0 * u == 0) by (nonlinear_arith);
    }
}

/// Term `j` of coefficient `k`, turned back to value `i`, with exact powers.
spec fn back_term(x: spec_fn(int) -> Cx, root: spec_fn(int) -> Cx, i: int, k: int, j: int) -> Cx {
    root((i - j) * k).times(x(j))
}

/// With exact powers the values come back, 2^bits times as large.
#[verifier::rlimit(40)]
proof fn lemma_exact_return(x: spec_fn(int) -> Cx, root: spec_fn(int) -> Cx, bits: nat, slack: int, i: int)
    requires
        roots_of_unity(root, bits, slack),
        0 <= i < pow2(bits),
    ensures
        total(|k: int| total(|j: int| back_term(x, root, i, k, j), pow2(bits) as int), pow2(bits) as int) == x(i).scaled(
            pow2(bits) * one(),
        ),
{
    let n = pow2(bits) as int;
    let u = one();
    let q = |k: int, j: int| back_term(x, root, i, k, j);
    lemma_total_swapped(q, n, n);
    let (rows, rows2) = (
        |k: int| total(|j: int| back_term(x, root, i, k, j), n),
        |k: int| total(|j: int| q(k, j), n),
    );
    assert forall|k: int| 0 <= k < n implies #[trigger] rows(k) == rows2(k) by {
        let (a, b) = (|j: int| back_term(x, root, i, k, j), |j: int| q(k, j));
        lemma_same_total(a, b, n);
    }
    lemma_same_total(rows, rows2, n);
    let columns = |j: int| total(|k: int| q(k, j), n);
    assert forall|j: int| 0 <= j < n implies #[trigger] columns(j) == (if j == i {
        x(i).scaled(n * u)
    } else {
        nought()
    }) by {
        let f = |k: int| root((i - j) * k);
        let (g, g2) = (|k: int| q(k, j), |k: int| f(k).times(x(j)));
        assert forall|k: int| 0 <= k < n implies #[trigger] g(k) == g2(k) by {}
        lemma_same_total(g, g2, n);
        lemma_total_by(f, x(j), n);
        let v = x(j);
        if j == i {
            assert forall|k: int| 0 <= k < n implies #[trigger] f(k) == (Cx { re: u, im: 0 }) by {
                assert((i - j) * k == 0) by (nonlinear_arith)
                    requires
                        i == j,
                ;
                lemma_root(root, bits, slack, 0);
            }
            lemma_ones_add_up(f, n, u);
            let nu = n * u;
            assert(nu * v.re - 0 * v.im == v.re * nu && nu * v.im + 0 * v.re == v.im * nu) by (nonlinear_arith);
        } else {
            let m = i - j;
            assert(m % n != 0) by {
                if m > 0 {
                    assert(m % n == m) by (nonlinear_arith)
                        requires
                            0 <= m < n,
                    ;
                } else {
                    assert(m % n == m + n) by (nonlinear_arith)
                        requires
                            -n < m < 0,
                    ;
                }
            }
            lemma_powers_cancel(root, bits, slack, m);
            assert(0 * v.re - 0 * v.im == 0 && 0 * v.im + 0 * v.re == 0) by (nonlinear_arith);
        }
    }
    lemma_total_of_one(columns, n, i);
}

/// The coefficients of values no larger than `a`, turned back and summed, give each value
/// back nearly.
#[verifier::rlimit(40)]
proof fn lemma_return(x: spec_fn(int) -> Cx, root: spec_fn(int) -> Cx, bits: nat, slack: int, a: int, i: int)
    requires
        roots_of_unity(root, bits, slack),
        0 <= i < pow2(bits),
        a >= 0,
        forall|j: int| within(#[trigger] x(j), a),
    ensures
        within(
            total(|k: int| level(x, root, 0, 1, -1, k, pow2(bits) as int).times(root(k * i)), pow2(bits) as int).less(
                x(i).scaled(pow2(bits) * one()).scaled(one()),
            ),
            pow2(bits) * (pow2(bits) * (a * (slack * one()))),
        ),
{
    let n = pow2(bits) as int;
    let u = one();
    lemma_pow2_pos(149);
    lemma_pow2_pos(bits);
    lemma_root(root, bits, slack, 0);
    let bound = a * (slack * u);
    assert(bound >= 0 && n * bound >= 0) by (nonlinear_arith)
        requires
            bound == a * (slack * u),
            a >= 0,
            slack >= 0,
            u > 0,
            n > 0,
    {
        assert(slack * u >= 0);
    }
    let there = |k: int| level(x, root, 0, 1, -1, k, n).times(root(k * i));
    let exact = |k: int| total(|j: int| back_term(x, root, i, k, j), n);
    let exact_u = |k: int| exact(k).scaled(u);
    let gap = |k: int| there(k).less(exact_u(k));
    lemma_exact_return(x, root, bits, slack, i);
    lemma_total_scaled(exact, u, n);
    lemma_total_of_sums(there, exact_u, n);
    assert forall|k: int| 0 <= k < n implies within(#[trigger] gap(k), n * bound) by {
        let w = root(k * i);
        let f = |j: int| term(x, root, 0, 1, -1, k, j);
        let g = |j: int| back_term(x, root, i, k, j);
        let (fw, gu) = (|j: int| f(j).times(w), |j: int| g(j).scaled(u));
        lemma_total_by(f, w, n);
        lemma_total_scaled(g, u, n);
        lemma_total_of_sums(fw, gu, n);
        let diff = |j: int| fw(j).less(gu(j));
        assert forall|j: int| 0 <= j < n implies within(#[trigger] diff(j), bound) by {
            let (p, q) = (-1 * (j * k * 1), k * i);
            assert(p + q == (i - j) * k) by (nonlinear_arith)
                requires
                    p == -1 * (j * k * 1),
                    q == k * i,
            ;
            assert(0 + j * 1 == j);
            let v = x(j);
            let t = root(p + q);
            lemma_root_product(root, bits, slack, p, q);
            lemma_product_within(v, a, root(p).times(root(q)).less(t.scaled(u)), slack * u);
            lemma_three(v, root(p), root(q), t, u);
            assert(t.times(v) == v.times(t)) by {
                assert(t.re * v.re == v.re * t.re && t.im * v.im == v.im * t.im && t.re * v.im == v.im * t.re && t.im * v.re
                    == v.re * t.im) by (nonlinear_arith);
            }
        }
        lemma_total_within(diff, n, bound);
    }
    lemma_total_within(gap, n, n * bound);
}

/// Far from each other at most: a value and what comes back of it, for values no larger
/// than `a`, factors off by `slack` and 2^bits values.
pub open spec fn round_trip_off(a: int, slack: int, bits: nat) -> int {
    let n = pow2(bits);
    let z = unscaled_off(a, slack, bits) / (n * one()) + 1;
    z + 2 * ((a + z + 0x2000_0000_0000) / 0x40_0000 + 1)
}

/// The same before the inverse transform scales its values, times 2^bits and `one()`.
pub open spec fn unscaled_off(a: int, slack: int, bits: nat) -> int {
    let n = pow2(bits);
    off(3 * (n * a), slack, bits) + 2 * (n * off(a, slack, bits)) + n * (n * (a * slack))
}

/// The number by which an inverse transform scales is exact.
pub(crate) proof fn lemma_share<K: Fn(Op, Width, u64, u64) -> u64>(c: &Calc<K>, bits: nat)
    requires
        rounds(c),
        bits <= 62,
    ensures
        ({
            let inv = single(0x3f80_0000).div(c, F32::of_count(c, pow2(bits) as u64));
            inv.finite() && inv.value() * pow2(bits) == one() && 0 <= inv.value() <= one()
        }),
{
    let u = one();
    let n = pow2(bits) as int;
    lemma_ones();
    lemma2_to64();
    lemma_pow2_strictly_increases(bits, 64);
    lemma_pow2_pos(bits);
    let count = F32::of_count(c, pow2(bits) as u64);
    lemma_of_count(c, pow2(bits) as u64);
    lemma_pow2_adds(bits, 149);
    lemma_grid(1, 150 + bits as int);
    assert(1 * pow2((150 + bits as int - 1) as nat) == n * u);
    lemma_exact(count, n * u, 1, grid(1, 150 + bits as int));
    let p = pow2((149 - bits) as nat) as int;
    lemma_pow2_adds((149 - bits) as nat, bits);
    lemma_pow2_pos((149 - bits) as nat);
    lemma_grid(1, 150 - bits as int);
    let y = grid(1, 150 - bits as int);
    assert(p * (n * u) == u * u && n * u > 0 && u * u <= 0x2_0000_0000_0000_0000 * (u * (n * u)) && u * u >= 0 && 0 <= p <= u)
        by (nonlinear_arith)
        requires
            p * n == u,
            n >= 1,
            p >= 1,
            u > 0,
    {
        assert(p * (n * u) == (p * n) * u);
        assert(u * (n * u) == n * (u * u));
        assert(n * (u * u) >= u * u);
        assert(p * n >= p);
    }
    lemma_reached(u * u, n * u);
    lemma_div(c, single(0x3f80_0000), count);
    lemma_exact(single(0x3f80_0000).div(c, count), u * u, n * u, y);
}

/// Scaling one part of a value.
proof fn lemma_share_of<K: Fn(Op, Width, u64, u64) -> u64>(c: &Calc<K>, v: F32, inv: F32, n: int, w: int, k: int)
    requires
        rounds(c),
        v.finite(),
        inv.finite(),
        n > 0,
        inv.value() * n == one(),
        0 <= inv.value() <= one(),
        apart(v.value(), 0) <= n * w,
        apart(v.value(), 0) <= 0x1000_0000_0000_0000 * one(),
        0x40_0000 * k >= w + 0x2000_0000_0000,
    ensures
        v.mul(c, inv).finite(),
        apart(v.mul(c, inv).value() * n, v.value()) <= n * k,
{
    let u = one();
    lemma_pow2_pos(149);
    let (x, i) = (v.value(), inv.value());
    let xi = x * i;
    assert(apart(xi, 0) <= 0x1000_0000_0000_0000 * (u * u)) by (nonlinear_arith)
        requires
            xi == x * i,
            0 <= i <= u,
            -(0x1000_0000_0000_0000 * u) <= x <= 0x1000_0000_0000_0000 * u,
    ;
    assert(u * u >= 0) by (nonlinear_arith);
    lemma_reached(xi, u);
    lemma_mul(c, v, inv);
    let y = v.mul(c, inv);
    lemma_near(y, xi, u);
    let o = y.value();
    let d = apart(o * n, x);
    assert(d * u == apart(o * u, xi) * n && apart(xi, 0) * n == apart(x, 0) * u) by (nonlinear_arith)
        requires
            d == apart(o * n, x),
            xi == x * i,
            i * n == u,
            n > 0,
            u > 0,
    {
        assert((o * n) * u == (o * u) * n);
        assert(x * u == xi * n);
        assert((o * n - x) * u == (o * u - xi) * n);
    }
    assert(0x40_0000 * d <= apart(x, 0) + 0x2000_0000_0000 * n) by (nonlinear_arith)
        requires
            d * u == apart(o * u, xi) * n,
            apart(xi, 0) * n == apart(x, 0) * u,
            0x40_0000 * apart(o * u, xi) <= apart(xi, 0) + 0x2000_0000_0000 * u,
            n > 0,
            u > 0,
    {
        assert((0x40_0000 * apart(o * u, xi)) * n <= (apart(xi, 0) + 0x2000_0000_0000 * u) * n);
        assert((0x40_0000 * d) * u <= (apart(x, 0) + 0x2000_0000_0000 * n) * u);
    }
    assert(n * (w + 0x2000_0000_0000) <= n * (0x40_0000 * k)) by (nonlinear_arith)
        requires
            n > 0,
            w + 0x2000_0000_0000 <= 0x40_0000 * k,
    ;
    assert(n * (w + 0x2000_0000_0000) == n * w + 0x2000_0000_0000 * n && n * (0x40_0000 * k) == 0x40_0000 * (n * k))
        by (nonlinear_arith);
}

/// Before it is scaled, value `i` of the inverse transform of a forward one is near 2^bits
/// times the value it came from.
#[verifier::rlimit(40)]
proof fn lemma_unscaled_return<K: Fn(Op, Width, u64, u64) -> u64>(
    c: &Calc<K>,
    d: Seq<Cpx>,
    root: spec_fn(int) -> Cx,
    bits: nat,
    slack: int,
    a: int,
    i: int,
)
    requires
        rounds(c),
        roots_of_unity(root, bits, slack),
        twiddles_follow(c, root, bits, slack),
        d.len() == pow2(bits),
        forall|j: int| 0 <= j < d.len() ==> numeric(#[trigger] d[j]) && within(val(d[j]), a),
        moderate(a, slack, bits),
        moderate(3 * (pow2(bits) * a), slack, bits),
        0 <= i < pow2(bits),
    ensures
        ({
            let there = transformed(c, d, bits, false);
            let v = stages(c, reordered(there, bits), bits, true)[i];
            &&& there.len() == d.len()
            &&& numeric(v)
            &&& within(val(v), 3 * (pow2(bits) * (3 * (pow2(bits) * a))))
            &&& within(val(v).scaled(one()).less(val(d[i]).scaled(pow2(bits) * one())), unscaled_off(a, slack, bits))
        }),
{
    let (n, u) = (pow2(bits) as int, one());
    lemma_pow2_pos(149);
    lemma_pow2_pos(bits);
    lemma2_to64();
    lemma_root(root, bits, slack, 0);
    let x = values(d);
    let there = transformed(c, d, bits, false);
    let y = values(there);
    lemma_stages_len(c, reordered(d, bits), bits, false);
    lemma_nought_within(a);
    assert forall|j: int| within(#[trigger] x(j), a) by {}
    let a1 = 3 * (n * a);
    let (e1, e2) = (off(a, slack, bits), off(a1, slack, bits));
    assert(reversed(0, 0) == 0 && 0 * n == 0);
    assert forall|k: int| 0 <= k < n implies numeric(#[trigger] there[k]) && within(val(there[k]), a1) && within(
        val(there[k]).scaled(u).less(level(x, root, 0, 1, -1, k, n)),
        e1,
    ) by {
        lemma_level(c, d, root, bits, slack, a, false, bits, 0, k);
        lemma_level_size(x, root, bits, slack, 0, 1, -1, k, n, a);
        lemma_value_size(val(there[k]), level(x, root, 0, 1, -1, k, n), n, a, slack, bits, bits);
    }
    lemma_nought_within(a1);
    assert forall|j: int| within(#[trigger] y(j), a1) by {}
    lemma_stages_len(c, reordered(there, bits), bits, true);
    lemma_level(c, there, root, bits, slack, a1, true, bits, 0, i);
    let v = stages(c, reordered(there, bits), bits, true)[i];
    let t = level(y, root, 0, 1, 1, i, n);
    lemma_level_size(y, root, bits, slack, 0, 1, 1, i, n, a1);
    lemma_value_size(val(v), t, n, a1, slack, bits, bits);
    // From the coefficients that the inverse transform is given to the exact ones.
    let f = |k: int| term(y, root, 0, 1, 1, i, k);
    let g = |k: int| level(x, root, 0, 1, -1, k, n).times(root(k * i));
    let fu = |k: int| f(k).scaled(u);
    let gap = |k: int| fu(k).less(g(k));
    let b = e1 * (u + slack);
    assert(e1 >= 0) by {
        assert(within(val(there[0]).scaled(u).less(level(x, root, 0, 1, -1, 0, n)), e1));
    }
    assert(b >= 0) by (nonlinear_arith)
        requires
            b == e1 * (u + slack),
            e1 >= 0,
            slack >= 0,
            u > 0,
    ;
    assert forall|k: int| 0 <= k < n implies within(#[trigger] gap(k), b) by {
        assert(1 * (k * i * 1) == k * i && 0 + k * 1 == k) by (nonlinear_arith);
        let w = root(k * i);
        let (p, q) = (val(there[k]), level(x, root, 0, 1, -1, k, n));
        assert(within(p.scaled(u).less(q), e1));
        lemma_root(root, bits, slack, k * i);
        lemma_product_within(p.scaled(u).less(q), e1, w, u + slack);
        lemma_times_less(p.scaled(u), q, w);
        lemma_times_scaled(p, u, w);
    }
    lemma_total_within(gap, n, b);
    lemma_total_scaled(f, u, n);
    lemma_total_of_sums(fu, g, n);
    lemma_return(x, root, bits, slack, a, i);
    // All together.
    let goal = val(v).scaled(u).less(val(d[i]).scaled(n * u));
    let (z1, z2) = (val(v).scaled(u).less(t), t.scaled(u).less(total(g, n)));
    let z3 = total(g, n).less(x(i).scaled(n * u).scaled(u));
    lemma_scaled_within(z1, e2, u);
    lemma_sum_size(z1.scaled(u), e2 * u, z2, n * b);
    lemma_sum_size(z1.scaled(u).plus(z2), e2 * u + n * b, z3, n * (n * (a * (slack * u))));
    assert(goal.scaled(u) == z1.scaled(u).plus(z2).plus(z3)) by {
        lemma_scaled_less(val(v).scaled(u), t, u);
        lemma_scaled_less(val(v).scaled(u), val(d[i]).scaled(n * u), u);
    }
    let bound = e2 * u + n * b + n * (n * (a * (slack * u)));
    let most = unscaled_off(a, slack, bits);
    assert(bound <= most * u && most >= 0) by (nonlinear_arith)
        requires
            bound == e2 * u + n * b + n * (n * (a * (slack * u))),
            b == e1 * (u + slack),
            most == e2 + 2 * (n * e1) + n * (n * (a * slack)),
            slack <= u,
            slack >= 0,
            e1 >= 0,
            e2 >= 0,
            a >= 0,
            n >= 0,
    {
        assert(b <= 2 * (e1 * u)) by (nonlinear_arith)
            requires
                b == e1 * (u + slack),
                slack <= u,
                e1 >= 0,
        ;
        assert(n * b <= n * (2 * (e1 * u)));
        assert(n * (2 * (e1 * u)) == (2 * (n * e1)) * u);
        assert(n * (n * (a * (slack * u))) == (n * (n * (a * slack))) * u);
        assert(a * slack >= 0);
        assert(n * (a * slack) >= 0);
        assert(n * (n * (a * slack)) >= 0);
        assert(n * e1 >= 0);
    }
    lemma_wider(goal.scaled(u), bound, most * u);
    lemma_unscaled_within(goal, most, u);
}

/// The inverse transform gives back what a forward transform was made of, within a bound:
/// for arithmetic that rounds to nearest, twiddle factors within `slack` of the roots of
/// unity, and values no larger than `a`.
#[verifier::rlimit(40)]
pub proof fn law_inverse_gives_the_input_back<K: Fn(Op, Width, u64, u64) -> u64>(
    c: &Calc<K>,
    d: Seq<Cpx>,
    root: spec_fn(int) -> Cx,
    bits: nat,
    slack: int,
    a: int,
)
    requires
        rounds(c),
        bits <= 62,
        roots_of_unity(root, bits, slack),
        twiddles_follow(c, root, bits, slack),
        d.len() == pow2(bits),
        forall|j: int| 0 <= j < d.len() ==> numeric(#[trigger] d[j]) && within(val(d[j]), a),
        moderate(a, slack, bits),
        moderate(3 * (pow2(bits) * a), slack, bits),
    ensures
        ({
            let back = transformed(c, transformed(c, d, bits, false), bits, true);
            &&& back.len() == d.len()
            &&& forall|i: int|
                0 <= i < d.len() ==> numeric(#[trigger] back[i]) && within(
                    val(back[i]).less(val(d[i])),
                    round_trip_off(a, slack, bits),
                )
        }),
{
    let (n, u) = (pow2(bits) as int, one());
    lemma_pow2_pos(149);
    lemma_pow2_pos(bits);
    let there = transformed(c, d, bits, false);
    let before = stages(c, reordered(there, bits), bits, true);
    let back = transformed(c, there, bits, true);
    lemma_stages_len(c, reordered(d, bits), bits, false);
    lemma_stages_len(c, reordered(there, bits), bits, true);
    lemma_share(c, bits);
    let inv = single(0x3f80_0000).div(c, F32::of_count(c, pow2(bits) as u64));
    let most = unscaled_off(a, slack, bits);
    let z = most / (n * u) + 1;
    let k = (a + z + 0x2000_0000_0000) / 0x40_0000 + 1;
    assert forall|i: int| 0 <= i < d.len() implies numeric(#[trigger] back[i]) && within(
        val(back[i]).less(val(d[i])),
        round_trip_off(a, slack, bits),
    ) by {
        lemma_unscaled_return(c, d, root, bits, slack, a, i);
        let v = before[i];
        assert(back[i] == (Cpx { re: v.re.mul(c, inv), im: v.im.mul(c, inv) }));
        let nu = n * u;
        assert(nu > 0) by (nonlinear_arith)
            requires
                nu == n * u,
                n > 0,
                u > 0,
        ;
        assert(most <= z * nu && z >= 1) by (nonlinear_arith)
            requires
                z == most / nu + 1,
                nu > 0,
                most >= 0,
        ;
        // How large the value is.
        let (goal, x) = (val(v).scaled(u).less(val(d[i]).scaled(nu)), val(d[i]));
        lemma_wider(goal, most, z * nu);
        lemma_scaled_within(x, a, nu);
        lemma_sum_size(goal, z * nu, x.scaled(nu), a * nu);
        assert(goal.plus(x.scaled(nu)) == val(v).scaled(u));
        let w = a + z;
        assert(z * nu + a * nu == (n * w) * u && n * w >= 0) by (nonlinear_arith)
            requires
                nu == n * u,
                w == a + z,
                n > 0,
                a >= 0,
                z >= 1,
        ;
        lemma_unscaled_within(val(v), n * w, u);
        lemma_parts(val(v), n * w);
        lemma_parts(val(v), 3 * (n * (3 * (n * a))));
        lemma_share_of(c, v.re, inv, n, w, k);
        lemma_share_of(c, v.im, inv, n, w, k);
        // From the scaled value to the one it came from.
        let o = val(back[i]);
        let rest = o.scaled(n).less(val(v));
        lemma_of_parts(rest, n * k);
        lemma_scaled_within(rest, 2 * (n * k), u);
        lemma_sum_size(rest.scaled(u), (2 * (n * k)) * u, goal, z * nu);
        assert(o.less(x).scaled(nu) == rest.scaled(u).plus(goal)) by {
            lemma_scaled_less(o, x, nu);
            lemma_scaled_less(o.scaled(n), val(v), u);
            lemma_scaled_twice(o, n, u);
        }
        assert((2 * (n * k)) * u + z * nu == (z + 2 * k) * nu) by (nonlinear_arith)
            requires
                nu == n * u,
        ;
        lemma_unscaled_within(o.less(x), z + 2 * k, nu);
    }
}

// ---------------------------------------------------------------- twiddles

/// The sines and cosines that give each stage its step are numbers within `slack` of the
/// roots.
pub open spec fn steps_follow<K: Fn(Op, Width, u64, u64) -> u64>(
    c: &Calc<K>,
    root: spec_fn(int) -> Cx,
    bits: nat,
    slack: int,
) -> bool {
    forall|s: nat, inverse: bool|
        1 <= s <= bits ==> follows(
            #[trigger] step_factor(c, pow2(s) as u64, inverse),
            root(sense(inverse) * pow2((bits - s) as nat)),
            slack,
        )
}

/// What one multiplication adds to a factor, where the steps are off by `slack`.
pub open spec fn turn_slack(slack: int) -> int {
    3 * slack + 2 * ((20 * one() + 0x8000_0000_0000) / 0x40_0000 + 1)
}

#[verifier::rlimit(40)]
proof fn lemma_twiddle<K: Fn(Op, Width, u64, u64) -> u64>(
    c: &Calc<K>,
    root: spec_fn(int) -> Cx,
    bits: nat,
    slack: int,
    w: Cpx,
    st: int,
    dir: int,
    k: int,
)
    requires
        rounds(c),
        roots_of_unity(root, bits, slack),
        follows(w, root(dir * st), slack),
        k >= 0,
        4 * (k * slack) <= one(),
        4 * (k * turn_slack(slack)) + 2 * slack <= 2 * one(),
        2 * slack <= one(),
    ensures
        follows(twiddle(c, w, k), root(dir * (k * st)), 2 * (k * turn_slack(slack))),
    decreases k,
{
    let u = one();
    let t = turn_slack(slack);
    lemma_ones();
    lemma_large();
    lemma_root(root, bits, slack, 0);
    if k == 0 {
        assert(0 * st == 0 && dir * 0 == 0) by (nonlinear_arith);
        assert(val(twiddle(c, w, 0)).less(root(0)) == nought());
        lemma_nought_within(0);
        assert(0 * t == 0);
    } else {
        let j = k - 1;
        assert(j * slack == k * slack - slack && j * t == k * t - t && j * t >= 0) by (nonlinear_arith)
            requires
                j == k - 1,
                k >= 1,
                t >= 0,
        ;
        lemma_twiddle(c, root, bits, slack, w, st, dir, j);
        let v = twiddle(c, w, j);
        let (p, q) = (dir * (j * st), dir * st);
        assert(p + q == dir * (k * st)) by (nonlinear_arith)
            requires
                p == dir * (j * st),
                q == dir * st,
                j == k - 1,
        ;
        let (r, r1, r2) = (root(p), root(q), root(p + q));
        let e = 2 * (j * t);
        let kk = (20 * u + 0x8000_0000_0000) / 0x40_0000 + 1;
        lemma_root(root, bits, slack, p);
        lemma_root(root, bits, slack, q);
        lemma_root_product(root, bits, slack, p, q);
        // The factor before is no larger than two.
        lemma_sum_size(val(v).less(r), e, r, u + slack);
        assert(val(v).less(r).plus(r) == val(v));
        lemma_wider(val(v), e + (u + slack), 2 * u);
        lemma_scaled_less(val(v), r, u);
        lemma_scaled_within(val(v).less(r), e, u);
        lemma_scaled_within(r, u + slack, u);
        let y = r.times(r1).less(r2.scaled(u));
        lemma_scaled_within(y, slack * u, u);
        lemma_times_scaled(r, u, r1);
        lemma_scaled_less(r.times(r1), r2.scaled(u), u);
        lemma_turned_near(c, v, w, r.scaled(u), r2.scaled(u), r1, 2 * u, e * u, (u + slack) * u, (slack * u) * u, slack, kk);
        let d = val(turned(c, v, w)).less(r2);
        lemma_scaled_less(val(turned(c, v, w)), r2, u * u);
        lemma_scaled_twice(r2, u, u);
        let (uu, e2) = (u * u, 2 * (k * t));
        let bound = 2 * (kk * uu) + (e * u) * (u + 2 * slack) + ((u + slack) * u) * slack + (slack * u) * u;
        assert(uu > 0) by (nonlinear_arith)
            requires
                uu == u * u,
                u > 0,
        ;
        assert(e * (2 * slack) <= t * u) by (nonlinear_arith)
            requires
                e == 2 * (j * t),
                4 * (j * slack) <= u,
                t >= 0,
        {
            assert(e * (2 * slack) == (4 * (j * slack)) * t);
        }
        let us = slack * u;
        assert((e * u) * (u + 2 * slack) == e * uu + (e * (2 * slack)) * u && (slack * u) * u == slack * uu && ((u + slack)
            * u) * slack == slack * uu + slack * us) by (nonlinear_arith)
            requires
                uu == u * u,
                us == slack * u,
        ;
        assert((e * (2 * slack)) * u <= t * uu && slack * us <= slack * uu) by (nonlinear_arith)
            requires
                e * (2 * slack) <= t * u,
                us == slack * u,
                uu == u * u,
                0 <= slack <= u,
                u > 0,
        {
            assert(us <= uu);
        }
        assert(t * uu == 3 * (slack * uu) + 2 * (kk * uu)) by (nonlinear_arith)
            requires
                t == 3 * slack + 2 * kk,
        ;
        assert(e2 * uu == e * uu + 2 * (t * uu)) by (nonlinear_arith)
            requires
                e2 == e + 2 * t,
        ;
        assert(t * uu >= 0) by (nonlinear_arith)
            requires
                t >= 0,
                uu > 0,
        ;
        assert(bound <= e2 * uu);
        lemma_wider(d.scaled(uu), bound, e2 * uu);
        lemma_unscaled_within(d, e2, uu);
    }
}

/// Twiddle factors, each the one before times the step, stay near the roots where sine and
/// cosine do: every multiplication adds `turn_slack` at most, twice.
pub proof fn law_twiddles_follow_their_steps<K: Fn(Op, Width, u64, u64) -> u64>(
    c: &Calc<K>,
    root: spec_fn(int) -> Cx,
    bits: nat,
    slack: int,
)
    requires
        rounds(c),
        roots_of_unity(root, bits, slack),
        steps_follow(c, root, bits, slack),
        2 * slack <= one(),
        2 * (pow2(bits) * slack) <= one(),
        2 * (pow2(bits) * turn_slack(slack)) <= one(),
    ensures
        twiddles_follow(c, root, bits, pow2(bits) * turn_slack(slack)),
        roots_of_unity(root, bits, pow2(bits) * turn_slack(slack)),
{
    let t = turn_slack(slack);
    let n = pow2(bits) as int;
    lemma_pow2_pos(bits);
    lemma_pow2_pos(149);
    lemma_root(root, bits, slack, 0);
    let wide = n * t;
    assert(wide >= t && t >= slack) by (nonlinear_arith)
        requires
            wide == n * t,
            n >= 1,
            t == 3 * slack + 2 * ((20 * one() + 0x8000_0000_0000) / 0x40_0000 + 1),
            slack >= 0,
            one() > 0,
    ;
    assert forall|s: nat, k: int, inverse: bool| 1 <= s <= bits && 0 <= k < pow2((s - 1) as nat) implies follows(
        #[trigger] twiddle(c, step_factor(c, pow2(s) as u64, inverse), k),
        root(sense(inverse) * (k * pow2((bits - s) as nat))),
        wide,
    ) by {
        let w = step_factor(c, pow2(s) as u64, inverse);
        let st = pow2((bits - s) as nat) as int;
        assert(2 * k <= n) by {
            lemma_pow2_unfold(s);
            if s < bits {
                lemma_pow2_strictly_increases(s, bits);
            }
        }
        assert(2 * (k * slack) <= n * slack && 2 * (k * t) <= n * t) by (nonlinear_arith)
            requires
                2 * k <= n,
                slack >= 0,
                t >= 0,
        ;
        lemma_twiddle(c, root, bits, slack, w, st, sense(inverse), k);
        lemma_wider(
            val(twiddle(c, w, k)).less(root(sense(inverse) * (k * st))),
            2 * (k * t),
            wide,
        );
    }
    lemma_looser(root, bits, slack, wide);
}

proof fn lemma_looser(root: spec_fn(int) -> Cx, bits: nat, slack: int, wide: int)
    requires
        roots_of_unity(root, bits, slack),
        slack <= wide,
    ensures
        roots_of_unity(root, bits, wide),
{
    let u = one();
    lemma_pow2_pos(149);
    assert(slack * u <= wide * u) by (nonlinear_arith)
        requires
            slack <= wide,
            u > 0,
    ;
    assert forall|k: int| within(#[trigger] root(k), u + wide) by {
        lemma_root(root, bits, slack, k);
        lemma_wider(root(k), u + slack, u + wide);
    }
    assert forall|j: int, k: int|
        within((#[trigger] root(j)).times(#[trigger] root(k)).less(root(j + k).scaled(u)), wide * u) by {
        lemma_root_product(root, bits, slack, j, k);
        lemma_wider(root(j).times(root(k)).less(root(j + k).scaled(u)), slack * u, wide * u);
    }
    assert forall|k: int| #[trigger] root(k + pow2(bits)) == root(k) by {
        lemma_root(root, bits, slack, k);
    }
    lemma_root(root, bits, slack, 0);
    if bits > 0 {
        assert forall|k: int| #[trigger] root(k + pow2((bits - 1) as nat)) == root(k).opposite() by {
            lemma_root(root, bits, slack, k);
        }
    }
    reveal(roots_of_unity);
}

} // verus!
