//! Radix-2 fast Fourier transform.
use crate::calc::{Calc, Op, Width};
use crate::num::{single, F32};
use vstd::arithmetic::power2::{
    lemma2_to64, lemma_pow2_adds, lemma_pow2_pos, lemma_pow2_strictly_increases, lemma_pow2_unfold, pow2,
};
use vstd::prelude::*;

verus! {

/// The number whose `bits` low bits are those of `i` in reverse order.
pub open spec fn reversed(i: int, bits: nat) -> int
    decreases bits,
{
    if bits == 0 {
        0
    } else {
        (i % 2) * pow2((bits - 1) as nat) + reversed(i / 2, (bits - 1) as nat)
    }
}

pub(crate) proof fn lemma_reversed_bound(i: int, bits: nat)
    requires
        0 <= i,
    ensures
        0 <= reversed(i, bits) < pow2(bits),
    decreases bits,
{
    if bits == 0 {
        lemma2_to64();
    } else {
        let p = pow2((bits - 1) as nat);
        lemma_reversed_bound(i / 2, (bits - 1) as nat);
        lemma_pow2_unfold(bits);
        assert(0 <= (i % 2) * p <= p) by (nonlinear_arith)
            requires
                0 <= i % 2 <= 1,
                p > 0,
        ;
    }
}

/// Peeling the highest bit in place of the lowest one.
proof fn lemma_reversed_from_top(x: int, y: int, bits: nat)
    requires
        bits > 0,
        0 <= x <= 1,
        0 <= y < pow2((bits - 1) as nat),
    ensures
        reversed(x * pow2((bits - 1) as nat) + y, bits) == 2 * reversed(y, (bits - 1) as nat) + x,
    decreases bits,
{
    let p = pow2((bits - 1) as nat);
    let i = x * p + y;
    if bits == 1 {
        lemma2_to64();
        assert(i == x) by (nonlinear_arith)
            requires
                i == x * p + y,
                p == 1,
                y == 0,
        ;
        assert(reversed(i / 2, 0) == 0);
        assert(reversed(y, 0) == 0);
        assert((i % 2) * pow2(0) == x) by (nonlinear_arith)
            requires
                i % 2 == x,
                pow2(0) == 1,
        ;
    } else {
        let b1 = (bits - 1) as nat;
        let q = pow2((bits - 2) as nat);
        lemma_pow2_unfold(b1);
        lemma_pow2_pos((bits - 2) as nat);
        assert(x * (2 * q) == 2 * (x * q)) by (nonlinear_arith);
        assert(i == 2 * (x * q) + y);
        assert(i % 2 == y % 2);
        assert(i / 2 == x * q + y / 2);
        lemma_reversed_from_top(x, y / 2, b1);
        assert((y % 2) * (2 * q) == 2 * ((y % 2) * q)) by (nonlinear_arith);
    }
}

/// Reversing the bits twice gives the number back.
pub proof fn law_reversal_is_an_involution(i: int, bits: nat)
    requires
        0 <= i < pow2(bits),
    ensures
        reversed(reversed(i, bits), bits) == i,
    decreases bits,
{
    if bits == 0 {
        lemma2_to64();
    } else {
        let p = pow2((bits - 1) as nat);
        lemma_pow2_unfold(bits);
        lemma_reversed_bound(i / 2, (bits - 1) as nat);
        law_reversal_is_an_involution(i / 2, (bits - 1) as nat);
        lemma_reversed_from_top(i % 2, reversed(i / 2, (bits - 1) as nat), bits);
    }
}

/// The reversal of the number after `i`, from that of `i`.
fn next_reversed(j: usize, n: usize, Ghost(i): Ghost<int>, Ghost(bits): Ghost<nat>) -> (r: usize)
    requires
        n == pow2(bits),
        bits > 0,
        0 <= i,
        i + 1 < n,
        j == reversed(i, bits),
    ensures
        r == reversed(i + 1, bits),
        r < n,
{
    let ghost mut rest = i;
    let ghost mut b = bits;
    let mut low: usize = j;
    let mut bit: usize = n / 2;
    proof {
        lemma_pow2_unfold(bits);
    }
    while low >= bit
        invariant
            0 <= rest,
            b > 0,
            rest + 1 < pow2(b),
            bit == pow2((b - 1) as nat),
            low == reversed(rest, b),
            reversed(i + 1, bits) == reversed(rest + 1, b),
        decreases b,
    {
        proof {
            let p = pow2((b - 1) as nat);
            lemma_pow2_unfold(b);
            lemma_reversed_bound(rest / 2, (b - 1) as nat);
            assert((rest % 2) * p == if rest % 2 == 1 {
                p as int
            } else {
                0
            }) by (nonlinear_arith)
                requires
                    rest % 2 == 0 || rest % 2 == 1,
            ;
            assert(rest % 2 == 1);
            assert((rest + 1) % 2 == 0);
            assert((rest + 1) / 2 == rest / 2 + 1);
            assert(((rest + 1) % 2) * p == 0) by (nonlinear_arith)
                requires
                    (rest + 1) % 2 == 0,
            ;
            if b == 1 {
                lemma2_to64();
            }
            lemma_pow2_unfold((b - 1) as nat);
            rest = rest / 2;
            b = (b - 1) as nat;
        }
        low = low - bit;
        bit = bit / 2;
    }
    proof {
        let p = pow2((b - 1) as nat);
        lemma_reversed_bound(rest / 2, (b - 1) as nat);
        lemma_reversed_bound(i + 1, bits);
        assert((rest % 2) * p == if rest % 2 == 1 {
            p as int
        } else {
            0
        }) by (nonlinear_arith)
            requires
                rest % 2 == 0 || rest % 2 == 1,
        ;
        assert(rest % 2 == 0);
        assert((rest + 1) % 2 == 1);
        assert((rest + 1) / 2 == rest / 2);
        assert(((rest + 1) % 2) * p == p) by (nonlinear_arith)
            requires
                (rest + 1) % 2 == 1,
        ;
    }
    low + bit
}

/// The data with each index's bits reversed.
pub open spec fn reordered<Z>(data: Seq<Z>, bits: nat) -> Seq<Z> {
    Seq::new(data.len(), |i: int| data[reversed(i, bits)])
}

/// Reorder the data by bit reversal, in place.
fn bit_reverse<Z: Copy>(data: &mut Vec<Z>, Ghost(bits): Ghost<nat>)
    requires
        old(data)@.len() == pow2(bits),
    ensures
        final(data)@ == reordered(old(data)@, bits),
{
    let n: usize = data.len();
    let ghost before = data@;
    let mut j: usize = 0;
    let mut i: usize = 1;
    proof {
        lemma_pow2_pos(bits);
        lemma_reversed_of_zero(bits);
        assert forall|a: int| 0 <= a < n implies data@[a] == (if a < 1 || reversed(a, bits) < 1 {
            before[reversed(a, bits)]
        } else {
            before[a]
        }) by {
            law_reversal_is_an_involution(a, bits);
            lemma_reversed_bound(a, bits);
        }
    }
    while i < n
        invariant
            1 <= i <= n,
            n == pow2(bits),
            data@.len() == n,
            before.len() == n,
            j == reversed(i - 1, bits),
            forall|a: int|
                0 <= a < n ==> #[trigger] data@[a] == (if a < i || reversed(a, bits) < i {
                    before[reversed(a, bits)]
                } else {
                    before[a]
                }),
        decreases n - i,
    {
        proof {
            if bits == 0 {
                lemma2_to64();
            }
        }
        j = next_reversed(j, n, Ghost(i - 1), Ghost(bits));
        let ghost prev = data@;
        proof {
            law_reversal_is_an_involution(i as int, bits);
        }
        if i < j {
            let a: Z = data[i];
            let b: Z = data[j];
            data[i] = b;
            data[j] = a;
        }
        proof {
            assert forall|a: int| 0 <= a < n implies #[trigger] data@[a] == (if a < i + 1 || reversed(
                a,
                bits,
            ) < i + 1 {
                before[reversed(a, bits)]
            } else {
                before[a]
            }) by {
                law_reversal_is_an_involution(a, bits);
                lemma_reversed_bound(a, bits);
                assert(prev[a] == prev[a]);
                assert(prev[i as int] == prev[i as int]);
                assert(prev[j as int] == prev[j as int]);
            }
        }
        i += 1;
    }
    assert(data@ =~= reordered(before, bits));
}

proof fn lemma_reversed_of_zero(bits: nat)
    ensures
        reversed(0, bits) == 0,
    decreases bits,
{
    if bits > 0 {
        lemma_reversed_of_zero((bits - 1) as nat);
        assert(0 * pow2((bits - 1) as nat) == 0) by (nonlinear_arith);
    }
}

/// A complex number.
#[derive(Clone, Copy, Debug)]
pub struct Cpx {
    pub re: F32,
    pub im: F32,
}

/// Real and imaginary parts side by side.
pub open spec fn paired(re: Seq<F32>, im: Seq<F32>) -> Seq<Cpx> {
    Seq::new(re.len(), |i: int| Cpx { re: re[i], im: im[i] })
}

/// The product of two complex numbers, the way a butterfly turns its second input.
#[verifier::allow_in_spec]
pub fn turned<K: Fn(Op, Width, u64, u64) -> u64>(c: &Calc<K>, v: Cpx, w: Cpx) -> Cpx
    requires
        c.sound(),
    returns
        (Cpx {
            re: v.re.mul(c, w.re).sub(c, v.im.mul(c, w.im)),
            im: v.re.mul(c, w.im).add(c, v.im.mul(c, w.re)),
        }),
{
    Cpx {
        re: v.re.mul(c, w.re).sub(c, v.im.mul(c, w.im)),
        im: v.re.mul(c, w.im).add(c, v.im.mul(c, w.re)),
    }
}

/// The angle between a block's twiddle factors.
#[verifier::allow_in_spec]
pub fn step_angle<K: Fn(Op, Width, u64, u64) -> u64>(c: &Calc<K>, len: u64, inverse: bool) -> F32
    requires
        c.sound(),
    returns
        (if inverse {
            single(0x40c9_0fdb).div(c, F32::of_count(c, len))
        } else {
            single(0xc0c9_0fdb).div(c, F32::of_count(c, len))
        }),
{
    if inverse {
        single(0x40c9_0fdb).div(c, F32::of_count(c, len))
    } else {
        single(0xc0c9_0fdb).div(c, F32::of_count(c, len))
    }
}

/// The factor from one twiddle to the next in blocks of `len` values.
#[verifier::allow_in_spec]
pub fn step_factor<K: Fn(Op, Width, u64, u64) -> u64>(c: &Calc<K>, len: u64, inverse: bool) -> Cpx
    requires
        c.sound(),
    returns
        (Cpx { re: step_angle(c, len, inverse).cos(c), im: step_angle(c, len, inverse).sin(c) }),
{
    Cpx { re: step_angle(c, len, inverse).cos(c), im: step_angle(c, len, inverse).sin(c) }
}

/// The `k`-th twiddle factor of a block.
pub open spec fn twiddle<K: Fn(Op, Width, u64, u64) -> u64>(c: &Calc<K>, w: Cpx, k: int) -> Cpx
    decreases k,
{
    if k <= 0 {
        Cpx { re: single(0x3f80_0000), im: single(0) }
    } else {
        turned(c, twiddle(c, w, k - 1), w)
    }
}

/// The first result of a butterfly.
#[verifier::allow_in_spec]
pub fn crossed_sum<K: Fn(Op, Width, u64, u64) -> u64>(c: &Calc<K>, u: Cpx, v: Cpx) -> Cpx
    requires
        c.sound(),
    returns
        (Cpx { re: u.re.add(c, v.re), im: u.im.add(c, v.im) }),
{
    Cpx { re: u.re.add(c, v.re), im: u.im.add(c, v.im) }
}

/// The second result of a butterfly.
#[verifier::allow_in_spec]
pub fn crossed_difference<K: Fn(Op, Width, u64, u64) -> u64>(c: &Calc<K>, u: Cpx, v: Cpx) -> Cpx
    requires
        c.sound(),
    returns
        (Cpx { re: u.re.sub(c, v.re), im: u.im.sub(c, v.im) }),
{
    Cpx { re: u.re.sub(c, v.re), im: u.im.sub(c, v.im) }
}

/// Value `j` after every block of `len` values is merged from its two halves.
pub open spec fn merged_value<K: Fn(Op, Width, u64, u64) -> u64>(c: &Calc<K>, d: Seq<Cpx>, len: int, w: Cpx, j: int) -> Cpx {
    let half = len / 2;
    let k = j % len;
    if k < half {
        crossed_sum(c, d[j], turned(c, d[j + half], twiddle(c, w, k)))
    } else {
        crossed_difference(c, d[j - half], turned(c, d[j], twiddle(c, w, k - half)))
    }
}

/// One stage: every block of `len` values is merged from its two halves.
pub open spec fn stage<K: Fn(Op, Width, u64, u64) -> u64>(c: &Calc<K>, d: Seq<Cpx>, len: int, inverse: bool) -> Seq<Cpx> {
    Seq::new(
        d.len(),
        |j: int| merged_value(c, d, len, step_factor(c, len as u64, inverse), j),
    )
}

/// The first `n` stages, with blocks of 2, 4, 8 and so on.
pub open spec fn stages<K: Fn(Op, Width, u64, u64) -> u64>(c: &Calc<K>, d: Seq<Cpx>, n: nat, inverse: bool) -> Seq<Cpx>
    decreases n,
{
    if n == 0 {
        d
    } else {
        stage(c, stages(c, d, (n - 1) as nat, inverse), pow2(n) as int, inverse)
    }
}

/// The transform of 2^bits values: reorder by bit reversal, then merge blocks of
/// doubling length; the inverse transform ends by scaling every value.
pub open spec fn transformed<K: Fn(Op, Width, u64, u64) -> u64>(c: &Calc<K>, d: Seq<Cpx>, bits: nat, inverse: bool) -> Seq<Cpx> {
    let t = stages(c, reordered(d, bits), bits, inverse);
    if inverse {
        let inv = single(0x3f80_0000).div(c, F32::of_count(c, d.len() as u64));
        t.map_values(|v: Cpx| Cpx { re: v.re.mul(c, inv), im: v.im.mul(c, inv) })
    } else {
        t
    }
}

fn merge<K: Fn(Op, Width, u64, u64) -> u64>(c: &Calc<K>, re: &mut Vec<F32>, im: &mut Vec<F32>, at: usize, len: usize, w: Cpx)
    requires
        c.sound(),
        2 <= len,
        len % 2 == 0,
        at % len == 0,
        at + len <= old(re)@.len(),
        old(re)@.len() == old(im)@.len(),
    ensures
        final(re)@.len() == old(re)@.len(),
        final(im)@.len() == old(im)@.len(),
        forall|j: int|
            0 <= j < old(re)@.len() ==> #[trigger] paired(final(re)@, final(im)@)[j] == (if at <= j
                < at + len {
                merged_value(c, paired(old(re)@, old(im)@), len as int, w, j)
            } else {
                paired(old(re)@, old(im)@)[j]
            }),
{
    let ghost d = paired(re@, im@);
    let n: usize = re.len();
    let half: usize = len / 2;
    let mut t: Cpx = Cpx { re: single(0x3f80_0000), im: single(0) };
    let mut k: usize = 0;
    while k < half
        invariant
            c.sound(),
            k <= half,
            half == len / 2,
            len % 2 == 0,
            2 <= len,
            at % len == 0,
            at + len <= n,
            n == re.len(),
            n == im.len(),
            d.len() == n,
            t == twiddle(c, w, k as int),
            forall|j: int|
                0 <= j < n ==> #[trigger] paired(re@, im@)[j] == (if at <= j < at + k || at + half <= j
                    < at + half + k {
                    merged_value(c, d, len as int, w, j)
                } else {
                    d[j]
                }),
        decreases half - k,
    {
        let a: usize = at + k;
        let b: usize = at + k + half;
        let u: Cpx = Cpx { re: re[a], im: im[a] };
        let v0: Cpx = Cpx { re: re[b], im: im[b] };
        let ghost prev = paired(re@, im@);
        assert(prev[a as int] == u && prev[b as int] == v0);
        let v: Cpx = turned(c, v0, t);
        let s: Cpx = crossed_sum(c, u, v);
        let e: Cpx = crossed_difference(c, u, v);
        re[a] = s.re;
        im[a] = s.im;
        re[b] = e.re;
        im[b] = e.im;
        proof {
            lemma_within_block(at as int, len as int, k as int);
            lemma_within_block(at as int, len as int, k + half);
            assert(s == merged_value(c, d, len as int, w, a as int));
            assert(e == merged_value(c, d, len as int, w, b as int));
            assert forall|j: int| 0 <= j < n implies #[trigger] paired(re@, im@)[j] == (if at <= j < at
                + k + 1 || at + half <= j < at + half + k + 1 {
                merged_value(c, d, len as int, w, j)
            } else {
                d[j]
            }) by {
                if j != a && j != b {
                    assert(prev[j] == paired(re@, im@)[j]);
                }
            }
        }
        t = turned(c, t, w);
        k += 1;
    }
}

proof fn lemma_within_block(at: int, len: int, k: int)
    requires
        0 <= at,
        len > 0,
        at % len == 0,
        0 <= k < len,
    ensures
        (at + k) % len == k,
{
    let q = at / len;
    assert(at == len * q) by (nonlinear_arith)
        requires
            at % len == 0,
            q == at / len,
            len > 0,
    ;
    assert((len * q + k) % len == k) by (nonlinear_arith)
        requires
            0 <= k < len,
    ;
}

fn run_stage<K: Fn(Op, Width, u64, u64) -> u64>(c: &Calc<K>, re: &mut Vec<F32>, im: &mut Vec<F32>, len: usize, inverse: bool)
    requires
        c.sound(),
        2 <= len,
        len % 2 == 0,
        old(re)@.len() % len as nat == 0,
        old(re)@.len() == old(im)@.len(),
    ensures
        final(re)@.len() == old(re)@.len(),
        final(im)@.len() == old(im)@.len(),
        paired(final(re)@, final(im)@) == stage(c, paired(old(re)@, old(im)@), len as int, inverse),
{
    let ghost d = paired(re@, im@);
    let w: Cpx = step_factor(c, len as u64, inverse);
    let n: usize = re.len();
    let ghost blocks = n as int / len as int;
    assert(n == blocks * len) by (nonlinear_arith)
        requires
            n % len == 0,
            blocks == n as int / len as int,
            len > 0,
    ;
    let mut i: usize = 0;
    let ghost mut b: int = 0;
    assert((0 * len) % (len as int) == 0) by (nonlinear_arith)
        requires
            len > 0,
    ;
    while i < n
        invariant
            c.sound(),
            2 <= len,
            len % 2 == 0,
            0 <= b <= blocks,
            n == blocks * len,
            i == b * len,
            re@.len() == n,
            im@.len() == n,
            d.len() == n,
            forall|j: int|
                0 <= j < n ==> #[trigger] paired(re@, im@)[j] == (if j < i {
                    merged_value(c, d, len as int, w, j)
                } else {
                    d[j]
                }),
        decreases n - i,
    {
        proof {
            assert(b < blocks) by (nonlinear_arith)
                requires
                    b * len < blocks * len,
                    len > 0,
            ;
            assert((b + 1) * len == b * len + len) by (nonlinear_arith);
            assert((b + 1) * len <= blocks * len) by (nonlinear_arith)
                requires
                    b + 1 <= blocks,
                    len > 0,
            ;
            assert((b * len) % (len as int) == 0) by (nonlinear_arith)
                requires
                    len > 0,
            ;
        }
        let ghost prev = paired(re@, im@);
        merge(c, re, im, i, len, w);
        proof {
            assert forall|j: int| 0 <= j < n implies #[trigger] paired(re@, im@)[j] == (if j < i + len {
                merged_value(c, d, len as int, w, j)
            } else {
                d[j]
            }) by {
                assert(prev[j] == prev[j]);
                if i <= j < i + len {
                    let k = j - i;
                    lemma_within_block(i as int, len as int, k);
                    let half = len as int / 2;
                    if k < half {
                        assert(prev[j + half] == d[j + half]);
                    } else {
                        assert(prev[j - half] == d[j - half]);
                    }
                }
            }
            b = b + 1;
        }
        i += len;
    }
    assert(paired(re@, im@) =~= stage(c, d, len as int, inverse));
}

/// In-place iterative radix-2 FFT. The length must be a power of two.
pub fn fft<K: Fn(Op, Width, u64, u64) -> u64>(c: &Calc<K>, re: &mut Vec<F32>, im: &mut Vec<F32>, inverse: bool)
    requires
        c.sound(),
        old(re)@.len() == old(im)@.len(),
        old(re)@.len() <= usize::MAX / 2,
        exists|bits: nat| old(re)@.len() == #[trigger] pow2(bits),
    ensures
        final(re)@.len() == old(re)@.len(),
        final(im)@.len() == old(im)@.len(),
        forall|bits: nat|
            old(re)@.len() == #[trigger] pow2(bits) ==> paired(final(re)@, final(im)@)
                == transformed(c, paired(old(re)@, old(im)@), bits, inverse),
{
    let n: usize = re.len();
    let ghost d = paired(re@, im@);
    let ghost bits = choose|bits: nat| n == #[trigger] pow2(bits);
    bit_reverse(re, Ghost(bits));
    bit_reverse(im, Ghost(bits));
    proof {
        lemma2_to64();
        lemma_pow2_pos(bits);
        assert forall|i: int| 0 <= i < n implies paired(re@, im@)[i] == reordered(d, bits)[i] by {
            lemma_reversed_bound(i, bits);
        }
        assert(paired(re@, im@) =~= reordered(d, bits));
    }
    let ghost mut done: nat = 0;
    let mut len: usize = 2;
    while len <= n
        invariant
            c.sound(),
            n == pow2(bits),
            n <= usize::MAX / 2,
            re@.len() == n,
            im@.len() == n,
            len == pow2(done + 1),
            done <= bits,
            paired(re@, im@) == stages(c, reordered(d, bits), done, inverse),
        decreases 2 * n - len,
    {
        proof {
            lemma_pow2_divides(done + 1, bits);
            lemma_pow2_unfold(done + 1);
            lemma_pow2_unfold(done + 2);
            lemma_pow2_pos(done);
        }
        run_stage(c, re, im, len, inverse);
        proof {
            done = done + 1;
        }
        len = len * 2;
    }
    proof {
        lemma_pow2_unfold(done + 1);
        if done < bits {
            lemma_pow2_divides(done + 1, bits);
        }
    }
    let ghost last = paired(re@, im@);
    if inverse {
        let inv: F32 = single(0x3f80_0000).div(c, F32::of_count(c, n as u64));
        let mut i: usize = 0;
        while i < n
            invariant
                c.sound(),
                i <= n,
                re@.len() == n,
                im@.len() == n,
                last.len() == n,
                forall|j: int|
                    0 <= j < n ==> #[trigger] paired(re@, im@)[j] == (if j < i {
                        (Cpx { re: last[j].re.mul(c, inv), im: last[j].im.mul(c, inv) })
                    } else {
                        last[j]
                    }),
            decreases n - i,
        {
            let ghost prev = paired(re@, im@);
            assert(prev[i as int] == last[i as int]);
            let a: F32 = re[i].mul(c, inv);
            let b: F32 = im[i].mul(c, inv);
            re[i] = a;
            im[i] = b;
            assert forall|j: int| 0 <= j < n && j != i implies #[trigger] paired(re@, im@)[j] == prev[j] by {}
            i += 1;
        }
        assert(paired(re@, im@) =~= transformed(c, d, bits, inverse));
    }
    assert forall|other: nat| n == #[trigger] pow2(other) implies other == bits by {
        if other < bits {
            lemma_pow2_strictly_increases(other, bits);
        } else if bits < other {
            lemma_pow2_strictly_increases(bits, other);
        }
    }
}

/// A smaller power of two divides a larger one.
proof fn lemma_pow2_divides(a: nat, b: nat)
    requires
        pow2(a) <= pow2(b) || a <= b,
    ensures
        a <= b,
        pow2(b) % pow2(a) == 0,
        pow2(a) <= pow2(b),
    decreases b,
{
    lemma_pow2_pos(a);
    lemma_pow2_pos(b);
    if a > b {
        lemma_pow2_strictly_increases(b, a);
    } else {
        lemma_pow2_adds(a, (b - a) as nat);
        let q = pow2((b - a) as nat);
        lemma_pow2_pos((b - a) as nat);
        let p = pow2(a);
        assert((p * q) % p == 0) by (nonlinear_arith)
            requires
                p > 0,
        ;
        assert(p <= p * q) by (nonlinear_arith)
            requires
                p > 0,
                q >= 1,
        ;
    }
}

/// The Hann window of `n` points at point `i`: periodic, so that windows half a length
/// apart sum to one.
#[verifier::allow_in_spec]
pub fn hann_of<K: Fn(Op, Width, u64, u64) -> u64>(c: &Calc<K>, i: u64, n: u64) -> F32
    requires
        c.sound(),
    returns
        (single(0x3f00_0000).sub(c, single(0x3f00_0000).mul(c, single(0x40c9_0fdb).mul(c, F32::of_count(c, i)).div(c, F32::of_count(c, n)).cos(c)))),
{
    single(0x3f00_0000).sub(c, single(0x3f00_0000).mul(c, single(0x40c9_0fdb).mul(c, F32::of_count(c, i)).div(c, F32::of_count(c, n)).cos(c)))
}

/// The magnitude of a complex number.
#[verifier::allow_in_spec]
pub fn magnitude<K: Fn(Op, Width, u64, u64) -> u64>(c: &Calc<K>, z: Cpx) -> F32
    requires
        c.sound(),
    returns
        (z.re.mul(c, z.re).add(c, z.im.mul(c, z.im)).sqrt(c)),
{
    z.re.mul(c, z.re).add(c, z.im.mul(c, z.im)).sqrt(c)
}

} // verus!
