//! Whole complex numbers, their sizes, and their sums.
use vstd::prelude::*;

verus! {

/// A complex number with whole parts.
pub struct Cx {
    pub re: int,
    pub im: int,
}

impl Cx {
    pub open spec fn plus(self, o: Cx) -> Cx {
        Cx { re: self.re + o.re, im: self.im + o.im }
    }

    pub open spec fn less(self, o: Cx) -> Cx {
        Cx { re: self.re - o.re, im: self.im - o.im }
    }

    pub open spec fn times(self, o: Cx) -> Cx {
        Cx { re: self.re * o.re - self.im * o.im, im: self.re * o.im + self.im * o.re }
    }

    /// `k` times as much.
    pub open spec fn scaled(self, k: int) -> Cx {
        Cx { re: self.re * k, im: self.im * k }
    }

    pub open spec fn opposite(self) -> Cx {
        Cx { re: -self.re, im: -self.im }
    }
}

pub open spec fn nought() -> Cx {
    Cx { re: 0, im: 0 }
}

/// Whether a number is no further than `b` from zero.
pub open spec fn within(z: Cx, b: int) -> bool {
    b >= 0 && z.re * z.re + z.im * z.im <= b * b
}

// ------------------------------------------------------------------ products

proof fn lemma_inner(a: int, b: int, c: int, d: int, q: int)
    by (nonlinear_arith)
    ensures
        (a * c - b * d) * q == a * (c * q) - b * (d * q),
        (a * c + b * d) * q == a * (c * q) + b * (d * q),
        a * (c - d) == a * c - a * d,
        a * (c + d) == a * c + a * d,
        (c - d) * a == c * a - d * a,
{
}

pub proof fn lemma_times_regrouped(v: Cx, p: Cx, q: Cx)
    ensures
        v.times(p).times(q) == v.times(p.times(q)),
{
    lemma_inner(v.re, v.im, p.re, p.im, q.re);
    lemma_inner(v.re, v.im, p.re, p.im, q.im);
    lemma_inner(v.re, v.im, p.im, p.re, q.re);
    lemma_inner(v.re, v.im, p.im, p.re, q.im);
    lemma_inner(v.re, 0, p.re * q.re, p.im * q.im, 0);
    lemma_inner(v.re, 0, p.re * q.im, p.im * q.re, 0);
    lemma_inner(v.im, 0, p.re * q.re, p.im * q.im, 0);
    lemma_inner(v.im, 0, p.re * q.im, p.im * q.re, 0);
}

pub proof fn lemma_times_less(a: Cx, b: Cx, w: Cx)
    ensures
        a.less(b).times(w) == a.times(w).less(b.times(w)),
        w.times(a.less(b)) == w.times(a).less(w.times(b)),
{
    lemma_inner(w.re, 0, a.re, b.re, 0);
    lemma_inner(w.im, 0, a.re, b.re, 0);
    lemma_inner(w.re, 0, a.im, b.im, 0);
    lemma_inner(w.im, 0, a.im, b.im, 0);
}

pub proof fn lemma_times_scaled(a: Cx, k: int, w: Cx)
    ensures
        a.scaled(k).times(w) == a.times(w).scaled(k),
        a.times(w.scaled(k)) == a.times(w).scaled(k),
{
    let (p, q, r, s) = (a.re, a.im, w.re, w.im);
    assert((p * k) * r - (q * k) * s == (p * r - q * s) * k && p * (r * k) - q * (s * k) == (p * r - q * s) * k)
        by (nonlinear_arith);
    assert((p * k) * s + (q * k) * r == (p * s + q * r) * k && p * (s * k) + q * (r * k) == (p * s + q * r) * k)
        by (nonlinear_arith);
}

pub proof fn lemma_scaled_less(a: Cx, b: Cx, k: int)
    ensures
        a.less(b).scaled(k) == a.scaled(k).less(b.scaled(k)),
        a.plus(b).scaled(k) == a.scaled(k).plus(b.scaled(k)),
{
    assert((a.re - b.re) * k == a.re * k - b.re * k && (a.im - b.im) * k == a.im * k - b.im * k && (a.re + b.re) * k == a.re
        * k + b.re * k && (a.im + b.im) * k == a.im * k + b.im * k) by (nonlinear_arith);
}

pub proof fn lemma_scaled_twice(a: Cx, j: int, k: int)
    ensures
        a.scaled(j).scaled(k) == a.scaled(j * k),
{
    assert((a.re * j) * k == a.re * (j * k) && (a.im * j) * k == a.im * (j * k)) by (nonlinear_arith);
}

// ---------------------------------------------------------------------- size

proof fn lemma_square_order(a: int, b: int)
    by (nonlinear_arith)
    requires
        b >= 0,
        a * a <= b * b,
    ensures
        -b <= a <= b,
{
}

/// The sizes of products: their squares are the products of the squares.
proof fn lemma_squares(a: int, b: int, c: int, d: int)
    ensures
        (a * c - b * d) * (a * c - b * d) + (a * d + b * c) * (a * d + b * c) == (a * a + b * b) * (c * c + d * d),
        (a * c + b * d) * (a * c + b * d) <= (a * a + b * b) * (c * c + d * d),
{
    let (p, q, r, s) = (a * c, b * d, a * d, b * c);
    let (aa, bb, cc, dd) = (a * a, b * b, c * c, d * d);
    assert(p * q == r * s) by (nonlinear_arith)
        requires
            p == a * c,
            q == b * d,
            r == a * d,
            s == b * c,
    ;
    assert(p * p == aa * cc) by (nonlinear_arith)
        requires
            p == a * c,
            aa == a * a,
            cc == c * c,
    ;
    assert(q * q == bb * dd) by (nonlinear_arith)
        requires
            q == b * d,
            bb == b * b,
            dd == d * d,
    ;
    assert(r * r == aa * dd) by (nonlinear_arith)
        requires
            r == a * d,
            aa == a * a,
            dd == d * d,
    ;
    assert(s * s == bb * cc) by (nonlinear_arith)
        requires
            s == b * c,
            bb == b * b,
            cc == c * c,
    ;
    assert((p - q) * (p - q) == p * p - 2 * (p * q) + q * q) by (nonlinear_arith);
    assert((p + q) * (p + q) == p * p + 2 * (p * q) + q * q) by (nonlinear_arith);
    assert((r + s) * (r + s) == r * r + 2 * (r * s) + s * s) by (nonlinear_arith);
    assert((r - s) * (r - s) == r * r - 2 * (r * s) + s * s) by (nonlinear_arith);
    assert((r - s) * (r - s) >= 0) by (nonlinear_arith);
    assert((aa + bb) * (cc + dd) == aa * cc + aa * dd + bb * cc + bb * dd) by (nonlinear_arith);
}

proof fn lemma_product_size(x: Cx, y: Cx)
    ensures
        (x.re * y.re - x.im * y.im) * (x.re * y.re - x.im * y.im) + (x.re * y.im + x.im * y.re) * (x.re * y.im + x.im
            * y.re) == (x.re * x.re + x.im * x.im) * (y.re * y.re + y.im * y.im),
        (x.re * y.re + x.im * y.im) * (x.re * y.re + x.im * y.im) <= (x.re * x.re + x.im * x.im) * (y.re * y.re + y.im
            * y.im),
        x.re * x.re + x.im * x.im >= 0,
        y.re * y.re + y.im * y.im >= 0,
{
    lemma_squares(x.re, x.im, y.re, y.im);
    assert(x.re * x.re + x.im * x.im >= 0 && y.re * y.re + y.im * y.im >= 0) by (nonlinear_arith);
}

/// The parts of a number are no larger than the number.
pub proof fn lemma_parts(z: Cx, b: int)
    requires
        within(z, b),
    ensures
        -b <= z.re <= b,
        -b <= z.im <= b,
{
    assert(z.re * z.re <= b * b && z.im * z.im <= b * b) by (nonlinear_arith)
        requires
            z.re * z.re + z.im * z.im <= b * b,
    ;
    lemma_square_order(z.re, b);
    lemma_square_order(z.im, b);
}

/// A number is no larger than twice its larger part.
pub proof fn lemma_of_parts(z: Cx, b: int)
    requires
        -b <= z.re <= b,
        -b <= z.im <= b,
    ensures
        within(z, 2 * b),
{
    assert(z.re * z.re <= b * b && z.im * z.im <= b * b && (2 * b) * (2 * b) == 4 * (b * b)) by (nonlinear_arith)
        requires
            -b <= z.re <= b,
            -b <= z.im <= b,
    ;
    assert(b * b >= 0) by (nonlinear_arith);
}

pub proof fn lemma_wider(z: Cx, a: int, b: int)
    requires
        within(z, a),
        a <= b,
    ensures
        within(z, b),
{
    assert(a * a <= b * b) by (nonlinear_arith)
        requires
            0 <= a <= b,
    ;
}

pub proof fn lemma_sum_size(x: Cx, a: int, y: Cx, b: int)
    requires
        within(x, a),
        within(y, b),
    ensures
        within(x.plus(y), a + b),
        within(x.less(y), a + b),
{
    let q = x.re * y.re + x.im * y.im;
    lemma_product_size(x, y);
    let (p, r) = (x.re * x.re + x.im * x.im, y.re * y.re + y.im * y.im);
    assert(q * q <= (a * b) * (a * b)) by (nonlinear_arith)
        requires
            q * q <= p * r,
            0 <= p <= a * a,
            0 <= r <= b * b,
    {
        assert(p * r <= (a * a) * (b * b));
        assert((a * a) * (b * b) == (a * b) * (a * b));
    }
    assert(p >= 0 && r >= 0) by (nonlinear_arith)
        requires
            p == x.re * x.re + x.im * x.im,
            r == y.re * y.re + y.im * y.im,
    ;
    assert(a * b >= 0) by (nonlinear_arith)
        requires
            a >= 0,
            b >= 0,
    ;
    lemma_square_order(q, a * b);
    assert((x.re + y.re) * (x.re + y.re) + (x.im + y.im) * (x.im + y.im) <= (a + b) * (a + b) && (x.re - y.re) * (x.re
        - y.re) + (x.im - y.im) * (x.im - y.im) <= (a + b) * (a + b)) by (nonlinear_arith)
        requires
            -(a * b) <= q <= a * b,
            q == x.re * y.re + x.im * y.im,
            x.re * x.re + x.im * x.im <= a * a,
            y.re * y.re + y.im * y.im <= b * b,
    ;
}

pub proof fn lemma_product_within(x: Cx, a: int, y: Cx, b: int)
    requires
        within(x, a),
        within(y, b),
    ensures
        within(x.times(y), a * b),
{
    lemma_product_size(x, y);
    let (p, r) = (x.re * x.re + x.im * x.im, y.re * y.re + y.im * y.im);
    assert(p >= 0 && r >= 0) by (nonlinear_arith)
        requires
            p == x.re * x.re + x.im * x.im,
            r == y.re * y.re + y.im * y.im,
    ;
    assert(p * r <= (a * b) * (a * b) && a * b >= 0) by (nonlinear_arith)
        requires
            0 <= p <= a * a,
            0 <= r <= b * b,
            a >= 0,
            b >= 0,
    {
        assert(p * r <= (a * a) * (b * b));
        assert((a * a) * (b * b) == (a * b) * (a * b));
    }
}

pub proof fn lemma_scaled_within(z: Cx, a: int, k: int)
    requires
        k >= 0,
        within(z, a),
    ensures
        within(z.scaled(k), a * k),
{
    assert((z.re * k) * (z.re * k) + (z.im * k) * (z.im * k) <= (a * k) * (a * k) && a * k >= 0) by (nonlinear_arith)
        requires
            z.re * z.re + z.im * z.im <= a * a,
            a >= 0,
            k >= 0,
    {
        assert((z.re * k) * (z.re * k) + (z.im * k) * (z.im * k) == (z.re * z.re + z.im * z.im) * (k * k));
        assert((z.re * z.re + z.im * z.im) * (k * k) <= (a * a) * (k * k));
        assert((a * a) * (k * k) == (a * k) * (a * k));
    }
}

/// What is `k` times as much is within `k` times the bound only if it is within the bound.
pub proof fn lemma_unscaled_within(z: Cx, a: int, k: int)
    requires
        k > 0,
        a >= 0,
        within(z.scaled(k), a * k),
    ensures
        within(z, a),
{
    assert(z.re * z.re + z.im * z.im <= a * a) by (nonlinear_arith)
        requires
            (z.re * k) * (z.re * k) + (z.im * k) * (z.im * k) <= (a * k) * (a * k),
            k > 0,
    {
        assert((z.re * k) * (z.re * k) + (z.im * k) * (z.im * k) == (z.re * z.re + z.im * z.im) * (k * k));
        assert((a * k) * (a * k) == (a * a) * (k * k));
        assert(k * k > 0);
    }
}

pub proof fn lemma_nought_within(b: int)
    requires
        b >= 0,
    ensures
        within(nought(), b),
{
    assert(0 <= b * b) by (nonlinear_arith);
}

// ---------------------------------------------------------------------- sums

/// The sum of the first `n` terms.
pub open spec fn total(f: spec_fn(int) -> Cx, n: int) -> Cx
    decreases n,
{
    if n <= 0 {
        nought()
    } else {
        total(f, n - 1).plus(f(n - 1))
    }
}

pub proof fn lemma_same_total(f: spec_fn(int) -> Cx, g: spec_fn(int) -> Cx, n: int)
    requires
        forall|i: int| 0 <= i < n ==> #[trigger] f(i) == g(i),
    ensures
        total(f, n) == total(g, n),
    decreases n,
{
    if n > 0 {
        lemma_same_total(f, g, n - 1);
        assert(f(n - 1) == g(n - 1));
    }
}

pub proof fn lemma_total_within(f: spec_fn(int) -> Cx, n: int, b: int)
    requires
        n >= 0,
        b >= 0,
        forall|i: int| 0 <= i < n ==> within(#[trigger] f(i), b),
    ensures
        within(total(f, n), n * b),
    decreases n,
{
    if n == 0 {
        assert(0 * b == 0) by (nonlinear_arith);
        lemma_nought_within(0);
    } else {
        lemma_total_within(f, n - 1, b);
        assert(within(f(n - 1), b));
        lemma_sum_size(total(f, n - 1), (n - 1) * b, f(n - 1), b);
        assert((n - 1) * b + b == n * b) by (nonlinear_arith);
    }
}

/// Sums of sums, and of differences.
pub proof fn lemma_total_of_sums(f: spec_fn(int) -> Cx, g: spec_fn(int) -> Cx, n: int)
    ensures
        total(|i: int| f(i).plus(g(i)), n) == total(f, n).plus(total(g, n)),
        total(|i: int| f(i).less(g(i)), n) == total(f, n).less(total(g, n)),
    decreases n,
{
    if n > 0 {
        lemma_total_of_sums(f, g, n - 1);
    }
}

/// A factor in front of a sum.
pub proof fn lemma_total_by(f: spec_fn(int) -> Cx, w: Cx, n: int)
    ensures
        total(|i: int| f(i).times(w), n) == total(f, n).times(w),
    decreases n,
{
    if n > 0 {
        lemma_total_by(f, w, n - 1);
        let (s, x) = (total(f, n - 1), f(n - 1));
        assert(s.times(w).plus(x.times(w)) == s.plus(x).times(w)) by {
            assert((s.re * w.re - s.im * w.im) + (x.re * w.re - x.im * w.im) == (s.re + x.re) * w.re - (s.im + x.im) * w.im)
                by (nonlinear_arith);
            assert((s.re * w.im + s.im * w.re) + (x.re * w.im + x.im * w.re) == (s.re + x.re) * w.im + (s.im + x.im) * w.re)
                by (nonlinear_arith);
        }
    } else {
        assert(0 * w.re == 0 && 0 * w.im == 0) by (nonlinear_arith);
    }
}

pub proof fn lemma_total_scaled(f: spec_fn(int) -> Cx, k: int, n: int)
    ensures
        total(|i: int| f(i).scaled(k), n) == total(f, n).scaled(k),
    decreases n,
{
    if n > 0 {
        lemma_total_scaled(f, k, n - 1);
        let (s, x) = (total(f, n - 1), f(n - 1));
        assert(s.re * k + x.re * k == (s.re + x.re) * k && s.im * k + x.im * k == (s.im + x.im) * k) by (nonlinear_arith);
    } else {
        assert(0 * k == 0) by (nonlinear_arith);
    }
}

/// The even terms and the odd ones.
pub proof fn lemma_total_halved(f: spec_fn(int) -> Cx, n: int)
    requires
        n >= 0,
    ensures
        total(f, 2 * n) == total(|i: int| f(2 * i), n).plus(total(|i: int| f(2 * i + 1), n)),
    decreases n,
{
    if n > 0 {
        lemma_total_halved(f, n - 1);
        assert(total(f, 2 * n) == total(f, 2 * n - 1).plus(f(2 * n - 1)));
        assert(total(f, 2 * n - 1) == total(f, 2 * n - 2).plus(f(2 * n - 2)));
        let (e, o) = (|i: int| f(2 * i), |i: int| f(2 * i + 1));
        assert(e(n - 1) == f(2 * n - 2) && o(n - 1) == f(2 * n - 1));
    }
}

/// Summing rows first or columns first.
pub proof fn lemma_total_swapped(f: spec_fn(int, int) -> Cx, n: int, m: int)
    ensures
        total(|i: int| total(|j: int| f(i, j), m), n) == total(|j: int| total(|i: int| f(i, j), n), m),
    decreases n,
{
    let rows = |i: int| total(|j: int| f(i, j), m);
    let columns = |j: int| total(|i: int| f(i, j), n);
    if n <= 0 {
        lemma_total_nought(columns, m);
    } else {
        lemma_total_swapped(f, n - 1, m);
        let before = |j: int| total(|i: int| f(i, j), n - 1);
        let last = |j: int| f(n - 1, j);
        lemma_total_of_sums(before, last, m);
        let both = |j: int| before(j).plus(last(j));
        assert forall|j: int| 0 <= j < m implies #[trigger] both(j) == columns(j) by {
            let column = |i: int| f(i, j);
            assert(total(column, n) == total(column, n - 1).plus(column(n - 1)));
        }
        lemma_same_total(both, columns, m);
        assert(rows(n - 1) == total(last, m));
    }
}

proof fn lemma_total_nought(f: spec_fn(int) -> Cx, n: int)
    requires
        forall|i: int| 0 <= i < n ==> #[trigger] f(i) == nought(),
    ensures
        total(f, n) == nought(),
    decreases n,
{
    if n > 0 {
        lemma_total_nought(f, n - 1);
        assert(f(n - 1) == nought());
    }
}

/// A sum in which only term `k` is not nought.
pub proof fn lemma_total_of_one(f: spec_fn(int) -> Cx, n: int, k: int)
    requires
        0 <= k < n,
        forall|i: int| 0 <= i < n && i != k ==> #[trigger] f(i) == nought(),
    ensures
        total(f, n) == f(k),
    decreases n,
{
    if k == n - 1 {
        lemma_total_nought(f, n - 1);
    } else {
        lemma_total_of_one(f, n - 1, k);
        assert(f(n - 1) == nought());
    }
}

/// The sum over a period does not depend on where it starts.
pub proof fn lemma_total_shifted(f: spec_fn(int) -> Cx, n: int, h: int)
    requires
        n >= 0,
        h >= 0,
        forall|i: int| #[trigger] f(i + n) == f(i),
    ensures
        total(|i: int| f(i + h), n) == total(f, n),
    decreases h,
{
    let g = |i: int| f(i + h);
    if h == 0 {
        assert forall|i: int| 0 <= i < n implies #[trigger] g(i) == f(i) by {}
        lemma_same_total(g, f, n);
    } else {
        lemma_total_shifted(f, n, h - 1);
        let before = |i: int| f(i + (h - 1));
        lemma_total_moved(before, n);
        let moved = |i: int| before(i + 1);
        assert forall|i: int| 0 <= i < n implies #[trigger] g(i) == moved(i) by {}
        lemma_same_total(g, moved, n);
        assert(before(n) == f((h - 1) + n));
        assert(before(0) == f(h - 1));
    }
}

proof fn lemma_total_moved(f: spec_fn(int) -> Cx, n: int)
    requires
        n >= 0,
    ensures
        total(|i: int| f(i + 1), n).plus(f(0)) == total(f, n).plus(f(n)),
    decreases n,
{
    if n > 0 {
        lemma_total_moved(f, n - 1);
    }
}

} // verus!
